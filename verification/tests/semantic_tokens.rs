use aiken_lsp::ast::{
    Annotation, Arg, CheckedModule, Definition, Expr, Function, Pattern, TypeInfo,
    ValueConstructor, ValueConstructorVariant,
};
use aiken_lsp::semantic_tokens::{
    collect_keywords, encode, is_ident_continue, is_ident_start, semantic_tokens_full,
    semantic_tokens_legend, sort_by_position, retain_nonempty, Mark, RawCollector, RawToken,
    CLASS, COMMENT, DECLARATION_BIT, DOCUMENTATION_BIT, FUNCTION, KEYWORD, NUMBER, TYPE, VARIABLE,
};
use aiken_lsp::span::{LineNumbers, Span};

fn sp(start: usize, end: usize) -> Span {
    Span { start, end }
}

fn tok(line: u32, start_char: u32, length: u32, token_type: u32, token_modifiers: u32) -> RawToken {
    RawToken { line, start_char, length, token_type, token_modifiers }
}

fn empty_info() -> TypeInfo {
    TypeInfo { name: "m".to_string(), values: vec![], types: vec![], types_constructors: vec![] }
}

fn module(code: &str, definitions: Vec<Definition>, doc: Vec<Span>, comments: Vec<Span>) -> CheckedModule {
    CheckedModule {
        name: "m".to_string(),
        code: code.to_string(),
        package: "p".to_string(),
        definitions,
        doc_comments: doc,
        comments,
        type_info: empty_info(),
        uri: Some("file:///m.ak".to_string()),
    }
}

#[test]
fn legend_names_follow_the_token_numbers() {
    let legend = semantic_tokens_legend();
    assert_eq!(legend.token_types.len(), 12);
    assert_eq!(legend.token_types[FUNCTION as usize], "function");
    assert_eq!(legend.token_types[KEYWORD as usize], "keyword");
    assert_eq!(legend.token_types[11], "enumMember");
    assert_eq!(legend.token_modifiers, vec!["declaration", "documentation", "readonly"]);
}

#[test]
fn identifier_bytes() {
    assert!(is_ident_start(b'a'));
    assert!(is_ident_start(b'Z'));
    assert!(is_ident_start(b'_'));
    assert!(!is_ident_start(b'1'));
    assert!(is_ident_continue(b'1'));
    assert!(!is_ident_continue(b'-'));
}

#[test]
fn encode_is_relative_to_the_previous_token() {
    let tokens = vec![tok(0, 4, 3, FUNCTION, 1), tok(0, 10, 2, VARIABLE, 0), tok(2, 1, 5, KEYWORD, 0)];
    assert_eq!(encode(tokens), vec![0, 4, 3, 0, 1, 0, 6, 2, 1, 0, 2, 1, 5, 4, 0]);
}

#[test]
fn encode_of_nothing_is_empty() {
    assert_eq!(encode(vec![]), Vec::<u32>::new());
}

#[test]
fn sorting_keeps_equal_positions_in_order() {
    let tokens = vec![tok(1, 0, 1, 0, 0), tok(0, 5, 1, 1, 0), tok(0, 5, 1, 2, 0), tok(0, 1, 1, 3, 0)];
    let sorted = sort_by_position(tokens);
    let types: Vec<u32> = sorted.iter().map(|t| t.token_type).collect();
    assert_eq!(types, vec![3, 1, 2, 0]);
}

#[test]
fn zero_length_tokens_are_dropped() {
    let kept = retain_nonempty(vec![tok(0, 0, 0, 0, 0), tok(0, 1, 2, 1, 0)]);
    assert_eq!(kept, vec![tok(0, 1, 2, 1, 0)]);
}

#[test]
fn push_skips_empty_spans() {
    let lines = LineNumbers::new("abc\n");
    let mut c = RawCollector::new(&lines);
    c.push(sp(1, 1), FUNCTION, 0);
    c.push(sp(2, 1), FUNCTION, 0);
    c.push(sp(0, 3), FUNCTION, 0);
    assert_eq!(c.marks, vec![Mark { span: sp(0, 3), token_type: FUNCTION, token_modifiers: 0 }]);
}

#[test]
fn keywords_are_found_ignoring_case() {
    let src = "pub fn foo() { Let x = 1 when_x when }\n";
    let lines = LineNumbers::new(src);
    let mut c = RawCollector::new(&lines);
    collect_keywords(&mut c, src, &lines);
    let spans: Vec<(usize, usize)> = c.marks.iter().map(|m| (m.span.start, m.span.end)).collect();
    assert_eq!(spans, vec![(0, 3), (4, 6), (15, 18), (32, 36)]);
    assert!(c.marks.iter().all(|m| m.token_type == KEYWORD && m.token_modifiers == 0));
}

#[test]
fn keyword_after_digits_is_found() {
    let src = "9if if9\n";
    let lines = LineNumbers::new(src);
    let mut c = RawCollector::new(&lines);
    collect_keywords(&mut c, src, &lines);
    let spans: Vec<(usize, usize)> = c.marks.iter().map(|m| (m.span.start, m.span.end)).collect();
    assert_eq!(spans, vec![(1, 3)]);
}

#[test]
fn full_tokens_of_a_small_module() {
    // "/// doc\nfn f(x: Int) { 1 }\n"
    let code = "/// doc\nfn f(x: Int) { 1 }\n";
    let arg = Arg {
        location: sp(13, 14),
        discarded: false,
        annotation: Some(Annotation::Constructor { location: sp(16, 19), arguments: vec![] }),
        type_text: "Int".to_string(),
    };
    let f = Function {
        location: sp(8, 26),
        name: "f".to_string(),
        arguments: vec![arg],
        body: Expr::UInt { location: sp(23, 24) },
        return_annotated: false,
        return_type_text: "Int".to_string(),
    };
    let m = module(code, vec![Definition::Fn(f)], vec![sp(0, 7)], vec![]);
    let data = semantic_tokens_full(&m);
    // Every token's type and modifier set is one the legend names.
    assert!(data.chunks(5).all(|t| t[3] < 12 && t[4] < 8));
    assert_eq!(
        data,
        vec![
            0, 0, 7, COMMENT, DOCUMENTATION_BIT,
            1, 0, 18, FUNCTION, DECLARATION_BIT,
            0, 0, 2, KEYWORD, 0,
            0, 5, 1, VARIABLE, DECLARATION_BIT,
            0, 3, 3, TYPE, 0,
            0, 7, 1, NUMBER, 0,
        ]
    );
}

#[test]
fn data_types_and_patterns() {
    let code = "type T { A }\nfn g() { let y = 2 }\n";
    let dt = Definition::DataType {
        location: sp(0, 12),
        name: "T".to_string(),
        constructors: vec![aiken_lsp::ast::RecordConstructor {
            location: sp(9, 10),
            name: "A".to_string(),
            field_annotations: vec![],
        }],
    };
    let body = Expr::Assignment {
        location: sp(22, 31),
        value: Box::new(Expr::UInt { location: sp(30, 31) }),
        pattern: Pattern::Var { location: sp(26, 27) },
        annotated: false,
        type_text: "Int".to_string(),
    };
    let g = Definition::Fn(Function {
        location: sp(13, 33),
        name: "g".to_string(),
        arguments: vec![],
        body,
        return_annotated: false,
        return_type_text: "Int".to_string(),
    });
    let m = module(code, vec![dt, g], vec![], vec![]);
    let data = semantic_tokens_full(&m);
    let decoded: Vec<u32> = data.chunks(5).map(|c| c[3]).collect();
    assert_eq!(decoded, vec![CLASS, KEYWORD, aiken_lsp::semantic_tokens::CONSTRUCTOR, FUNCTION, KEYWORD, KEYWORD, VARIABLE, NUMBER]);
}

#[test]
fn value_constructor_is_not_a_token_of_its_own() {
    let v = ValueConstructor {
        variant: ValueConstructorVariant::LocalVariable,
        type_text: "Int".to_string(),
        fn_return_text: None,
    };
    let code = "x\n";
    let e = Expr::Var { location: sp(0, 1), name: "x".to_string(), constructor: v };
    let c = Definition::ModuleConstant { location: sp(0, 1), name: "c".to_string(), annotation: None, value: e };
    let m = module(code, vec![c], vec![], vec![]);
    assert_eq!(semantic_tokens_full(&m), vec![0, 0, 1, VARIABLE, 4, 0, 0, 1, FUNCTION, 0]);
}
