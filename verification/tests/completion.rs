use aiken_lsp::ast::{
    CheckedModule, Definition, Field, FieldMap, Located, ScopeType, ScopeValue, TypeConstructors,
    TypeInfo, ValueConstructor, ValueConstructorVariant, Expr,
};
use aiken_lsp::completion::{
    completion_for_annotation, completion_for_argument, completion_for_expression,
    completion_for_import, completion_for_pattern, format_constructor_signature,
    format_function_signature, format_insert_text, format_labeled_args, is_ordinal_argument_name,
    sort_by_label, value_to_completion_item, CompletionItem, CompletionItemKind,
};
use aiken_lsp::server::{LspProject, Server};
use aiken_lsp::span::Span;

fn fm(fields: &[(&str, usize)]) -> FieldMap {
    FieldMap {
        fields: fields.iter().map(|(l, i)| Field { label: l.to_string(), index: *i }).collect(),
    }
}

fn vc(variant: ValueConstructorVariant, t: &str) -> ValueConstructor {
    ValueConstructor { variant, type_text: t.to_string(), fn_return_text: None }
}

fn module_fn(name: &str, arity: usize, field_map: Option<FieldMap>) -> ValueConstructorVariant {
    ValueConstructorVariant::ModuleFn { name: name.to_string(), arity, field_map }
}

fn record(name: &str, arity: usize, field_map: Option<FieldMap>, count: u16) -> ValueConstructorVariant {
    ValueConstructorVariant::Record { name: name.to_string(), arity, field_map, constructors_count: count }
}

fn value(name: &str, variant: ValueConstructorVariant) -> ScopeValue {
    ScopeValue { name: name.to_string(), constructor: vc(variant, "T") }
}

fn info(values: Vec<ScopeValue>) -> TypeInfo {
    TypeInfo { name: "my/mod".to_string(), values, types: vec![], types_constructors: vec![] }
}

fn labels(items: &[CompletionItem]) -> Vec<String> {
    items.iter().map(|i| i.label.clone()).collect()
}

fn checked(name: &str) -> CheckedModule {
    CheckedModule {
        name: name.to_string(),
        code: String::new(),
        package: "p".to_string(),
        definitions: vec![],
        doc_comments: vec![],
        comments: vec![],
        type_info: info(vec![]),
        uri: None,
    }
}

#[test]
fn ordinal_argument_names() {
    assert!(is_ordinal_argument_name("1st_arg"));
    assert!(is_ordinal_argument_name("2nd_arg"));
    assert!(is_ordinal_argument_name("23rd_arg"));
    assert!(!is_ordinal_argument_name("arg"));
    assert!(!is_ordinal_argument_name("1st"));
    assert!(!is_ordinal_argument_name("first_arg"));
    assert!(!is_ordinal_argument_name(""));
    assert!(!is_ordinal_argument_name("1_arg"));
    assert!(!is_ordinal_argument_name("9foo_arg"));
    assert!(is_ordinal_argument_name("4th_arg"));
}

#[test]
fn labeled_args_fill_gaps_with_underscores() {
    assert_eq!(format_labeled_args(4, &fm(&[("c", 2), ("a", 0)])), "a, _, c, _");
    assert_eq!(format_labeled_args(1, &fm(&[("a", 0), ("b", 1)])), "a, b");
}

#[test]
fn function_signatures() {
    assert_eq!(format_function_signature("f", 2, &None), "f(_, _)");
    assert_eq!(format_function_signature("f", 0, &None), "f()");
    assert_eq!(format_function_signature("f", 2, &Some(fm(&[]))), "f(_, _)");
    assert_eq!(format_function_signature("f", 2, &Some(fm(&[("y", 1)]))), "f(_, y)");
    assert_eq!(format_constructor_signature("None", 0, &None), "None");
    assert_eq!(format_constructor_signature("Some", 1, &None), "Some(_)");
}

#[test]
fn insert_texts() {
    assert_eq!(format_insert_text("f", &module_fn("f", 2, None)), "f(${1:_}, ${2:_})");
    assert_eq!(
        format_insert_text("f", &module_fn("f", 3, Some(fm(&[("b", 1)])))),
        "f(${1:_}, b: ${2:_}, ${3:_})"
    );
    assert_eq!(format_insert_text("g", &module_fn("g", 0, None)), "g");
    assert_eq!(format_insert_text("R", &record("R", 1, Some(fm(&[("x", 0)])), 1)), "R(x: ${1:_})");
    assert_eq!(format_insert_text("c", &ValueConstructorVariant::ModuleConstant { name: "c".to_string() }), "c");
    assert_eq!(format_insert_text("v", &ValueConstructorVariant::LocalVariable), "v");
}

#[test]
fn many_placeholders_are_numbered_in_decimal() {
    let text = format_insert_text("f", &module_fn("f", 12, None));
    assert!(text.ends_with("${11:_}, ${12:_})"));
}

#[test]
fn value_items() {
    let item = value_to_completion_item("add", &vc(module_fn("add", 2, None), "fn(Int, Int) -> Int"));
    assert_eq!(item.label, "add");
    assert_eq!(item.kind, CompletionItemKind::Function);
    assert_eq!(item.detail.as_deref(), Some("add(_, _)"));
    assert_eq!(item.documentation.as_deref(), Some("```aiken\nfn(Int, Int) -> Int\n```"));
    assert_eq!(item.insert_text.as_deref(), Some("add(${1:_}, ${2:_})"));
    assert!(item.snippet);

    let aliased = value_to_completion_item("plus", &vc(module_fn("add", 1, None), "T"));
    assert_eq!(aliased.detail.as_deref(), Some("fn plus(_)"));

    let c = value_to_completion_item("k", &vc(ValueConstructorVariant::ModuleConstant { name: "k".to_string() }, "Int"));
    assert_eq!((c.kind, c.detail.as_deref()), (CompletionItemKind::Constant, Some("const")));
    let c2 = value_to_completion_item("k2", &vc(ValueConstructorVariant::ModuleConstant { name: "k".to_string() }, "Int"));
    assert_eq!(c2.detail.as_deref(), Some("const k2"));

    let r = value_to_completion_item("Some", &vc(record("Some", 1, None, 2), "T"));
    assert_eq!((r.kind, r.detail.as_deref()), (CompletionItemKind::Constructor, Some("Some(_) (variant of 2)")));
    let r1 = value_to_completion_item("Unit", &vc(record("Unit", 0, None, 1), "T"));
    assert_eq!(r1.detail.as_deref(), Some("Unit"));

    let v = value_to_completion_item("x", &vc(ValueConstructorVariant::LocalVariable, "Int"));
    assert_eq!((v.kind, v.detail), (CompletionItemKind::Variable, None));
}

#[test]
fn import_completions_are_sorted_and_filtered() {
    let local = vec![checked("my/b"), checked("my/a")];
    let deps = vec!["aiken/list".to_string(), "my/c".to_string()];
    let module = vec!["my".to_string()];
    let items = completion_for_import(&local, deps.clone(), &module);
    assert_eq!(labels(&items), vec!["my/a", "my/b", "my/c"]);
    assert!(items.iter().all(|i| i.kind == CompletionItemKind::Module && i.documentation.is_none()));
    let all = completion_for_import(&local, deps, &vec![]);
    assert_eq!(labels(&all), vec!["aiken/list", "my/a", "my/b", "my/c"]);
}

#[test]
fn expression_completions_skip_locals_ordinals_and_the_current_module() {
    let t = info(vec![
        value("zeta", module_fn("zeta", 0, None)),
        value("x", ValueConstructorVariant::LocalVariable),
        value("1st_arg", ValueConstructorVariant::ModuleConstant { name: "1st_arg".to_string() }),
        value("alpha", ValueConstructorVariant::ModuleConstant { name: "alpha".to_string() }),
    ]);
    let mods = vec!["my/mod".to_string(), "aiken/list".to_string()];
    let items = completion_for_expression(&t, &mods).unwrap();
    assert_eq!(labels(&items), vec!["aiken/list", "alpha", "zeta"]);
}

#[test]
fn sort_by_label_orders_bytes_and_keeps_ties() {
    let mk = |l: &str, k| CompletionItem {
        label: l.to_string(),
        kind: k,
        detail: None,
        documentation: None,
        insert_text: None,
        snippet: false,
    };
    let sorted = sort_by_label(vec![
        mk("b", CompletionItemKind::Class),
        mk("B", CompletionItemKind::Class),
        mk("a", CompletionItemKind::Module),
        mk("a", CompletionItemKind::Function),
    ]);
    let got: Vec<(String, CompletionItemKind)> = sorted.into_iter().map(|i| (i.label, i.kind)).collect();
    assert_eq!(
        got,
        vec![
            ("B".to_string(), CompletionItemKind::Class),
            ("a".to_string(), CompletionItemKind::Module),
            ("a".to_string(), CompletionItemKind::Function),
            ("b".to_string(), CompletionItemKind::Class),
        ]
    );
}

#[test]
fn pattern_completions_use_the_listed_constructors() {
    let mut t = info(vec![
        value("Some", record("Some", 1, None, 2)),
        value("None", record("None", 0, None, 2)),
        value("Other", record("Other", 0, None, 1)),
    ]);
    t.types_constructors = vec![TypeConstructors {
        name: "Option<Int>".to_string(),
        constructors: vec!["None".to_string(), "Some".to_string(), "Missing".to_string()],
    }];
    let items = completion_for_pattern(&t, "Option<Int>").unwrap();
    assert_eq!(labels(&items), vec!["None", "Some"]);
    let fallback = completion_for_pattern(&t, "Bool").unwrap();
    assert_eq!(labels(&fallback), vec!["Some", "None", "Other"]);
}

#[test]
fn annotation_completions_list_types_sorted() {
    let mut t = info(vec![]);
    t.types = vec![
        ScopeType { name: "Int".to_string(), type_text: "Int".to_string() },
        ScopeType { name: "Bool".to_string(), type_text: "Bool".to_string() },
    ];
    let items = completion_for_annotation(&t).unwrap();
    assert_eq!(labels(&items), vec!["Bool", "Int"]);
    assert_eq!(items[0].kind, CompletionItemKind::Class);
    assert_eq!(items[0].documentation.as_deref(), Some("```aiken\nBool\n```"));
}

#[test]
fn argument_completions_offer_each_label_once() {
    let t = info(vec![
        value("f", module_fn("f", 2, Some(fm(&[("amount", 0), ("to", 1)])))),
        value("R", record("R", 2, Some(fm(&[("to", 0), ("memo", 1)])), 1)),
        value("g", module_fn("g", 1, None)),
    ]);
    let items = completion_for_argument(&t).unwrap();
    assert_eq!(labels(&items), vec!["amount:", "memo:", "to:"]);
    let to = items.iter().find(|i| i.label == "to:").unwrap();
    assert_eq!(to.detail.as_deref(), Some("labeled argument `to`"));
    let memo = items.iter().find(|i| i.label == "memo:").unwrap();
    assert_eq!(memo.detail.as_deref(), Some("record field `memo`"));
    assert_eq!(memo.insert_text.as_deref(), Some("memo: ${1}"));
    assert_eq!(memo.kind, CompletionItemKind::Property);
}

#[test]
fn server_completion_dispatches_on_the_node() {
    let server = Server {
        compiler: Some(LspProject {
            modules: vec![checked("my/a")],
            importable_modules: vec!["aiken/list".to_string()],
            own_package: "p".to_string(),
        }),
    };
    let t = info(vec![value("alpha", ValueConstructorVariant::ModuleConstant { name: "alpha".to_string() })]);
    let none = server.completion(None, Some(&t)).unwrap();
    assert_eq!(labels(&none), vec!["aiken/list", "my/a"]);
    let use_def = Located::Definition(Definition::Use {
        location: Span { start: 0, end: 10 },
        module: vec!["aiken".to_string()],
        unqualified: vec![],
    });
    assert_eq!(labels(&server.completion(Some(&use_def), Some(&t)).unwrap()), vec!["aiken/list"]);
    let expr = Located::Expression(Expr::UInt { location: Span { start: 0, end: 1 } });
    assert_eq!(labels(&server.completion(Some(&expr), Some(&t)).unwrap()), vec!["aiken/list", "alpha"]);
    assert!(server.completion(Some(&expr), None).is_none());
    assert!(server.completion(Some(&Located::Annotation), None).is_none());
    let other = Located::Definition(Definition::TypeAlias {
        location: Span { start: 0, end: 1 },
        alias: "A".to_string(),
        annotation: aiken_lsp::ast::Annotation::Hole,
    });
    assert!(server.completion(Some(&other), Some(&t)).is_none());
    let offline = Server { compiler: None };
    assert!(offline.completion(None, Some(&t)).is_none());
}
