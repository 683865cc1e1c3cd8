//! Semantic highlighting: which spans of a module are functions, variables, types,
//! keywords and so on, encoded as the protocol's relative integer stream.
use vstd::prelude::*;
use vstd::string::StringSliceAdditionalSpecFns;
use vstd::utf8::encode_utf8;
use crate::ast::{
    Annotation, Arg, CallArg, CheckedModule, Clause, Definition, Expr, Function, IfBranch,
    Pattern, RecordConstructor,
};
use crate::span::{LineNumbers, Span, is_resolvable, position_at, position_of, resolvable};
use vstd::wrapping::u32_specs::{wrapping_add, wrapping_sub};
use crate::text::views;

verus! {

broadcast use vstd::seq_lib::group_seq_properties;

pub const FUNCTION: u32 = 0;
pub const VARIABLE: u32 = 1;
pub const CLASS: u32 = 2;
pub const CONSTRUCTOR: u32 = 3;
pub const KEYWORD: u32 = 4;
pub const STRING: u32 = 5;
pub const NUMBER: u32 = 6;
pub const COMMENT: u32 = 7;
pub const NAMESPACE: u32 = 8;
pub const TYPE: u32 = 9;
pub const OPERATOR: u32 = 10;
pub const ENUM_MEMBER: u32 = 11;

pub const DECLARATION_BIT: u32 = 1;
pub const DOCUMENTATION_BIT: u32 = 2;
pub const READONLY_BIT: u32 = 4;

/// The names of the token types and modifiers, in the order of their numbers.
pub struct SemanticTokensLegend {
    pub token_types: Vec<String>,
    pub token_modifiers: Vec<String>,
}

/// The token type names, indexed by the token type numbers above.
pub open spec fn token_type_names() -> Seq<Seq<char>> {
    seq![
        "function"@,
        "variable"@,
        "class"@,
        "constructor"@,
        "keyword"@,
        "string"@,
        "number"@,
        "comment"@,
        "namespace"@,
        "type"@,
        "operator"@,
        "enumMember"@,
    ]
}

/// The modifier names: bit `i` of a modifier set stands for the i-th name.
pub open spec fn token_modifier_names() -> Seq<Seq<char>> {
    seq!["declaration"@, "documentation"@, "readonly"@]
}

fn owned(s: &str) -> (r: String)
    ensures
        r@ == s@,
{
    s.to_owned()
}

/// The legend that tells the editor what the token type and modifier numbers mean.
pub fn semantic_tokens_legend() -> (r: SemanticTokensLegend)
    ensures
        views(r.token_types@) == token_type_names(),
        views(r.token_modifiers@) == token_modifier_names(),
{
    let token_types = vec![
        owned("function"),
        owned("variable"),
        owned("class"),
        owned("constructor"),
        owned("keyword"),
        owned("string"),
        owned("number"),
        owned("comment"),
        owned("namespace"),
        owned("type"),
        owned("operator"),
        owned("enumMember"),
    ];
    let token_modifiers = vec![owned("declaration"), owned("documentation"), owned("readonly")];
    assert(views(token_types@) == token_type_names());
    assert(views(token_modifiers@) == token_modifier_names());
    SemanticTokensLegend { token_types, token_modifiers }
}

/// A highlighted span with its token type and modifier bits.
#[derive(Clone, Copy, Debug, PartialEq, Eq)]
pub struct Mark {
    pub span: Span,
    pub token_type: u32,
    pub token_modifiers: u32,
}

/// The length a span is given as a token: its byte length cut to 32 bits (0 for a
/// span whose end is before its start).
pub open spec fn span_len(span: Span) -> u32 {
    (if span.end >= span.start { span.end - span.start } else { 0 }) as u32
}

/// The mark of a span, or none where its token length is 0.
pub open spec fn emit(span: Span, token_type: u32, token_modifiers: u32) -> Seq<Mark> {
    if span_len(span) == 0 {
        Seq::empty()
    } else {
        seq![Mark { span, token_type, token_modifiers }]
    }
}

pub open spec fn annotation_marks(a: Annotation) -> Seq<Mark>
    decreases a,
{
    match a {
        Annotation::Constructor { location, arguments } => emit(location, TYPE, 0)
            + annotations_marks(arguments@),
        Annotation::Fn { arguments, ret } => annotations_marks(arguments@) + annotation_marks(*ret),
        Annotation::Var { location } => emit(location, TYPE, 0),
        Annotation::Tuple { elems } => annotations_marks(elems@),
        Annotation::Pair { fst, snd } => annotation_marks(*fst) + annotation_marks(*snd),
        Annotation::Hole => Seq::empty(),
    }
}

pub open spec fn annotations_marks(s: Seq<Annotation>) -> Seq<Mark>
    decreases s,
{
    if s.len() == 0 {
        Seq::empty()
    } else {
        annotations_marks(s.drop_last()) + annotation_marks(s.last())
    }
}

pub open spec fn pattern_marks(p: Pattern, extra: u32) -> Seq<Mark>
    decreases p,
{
    match p {
        Pattern::Var { location } => emit(location, VARIABLE, extra),
        Pattern::Assign { location, pattern } => emit(location, VARIABLE, extra) + pattern_marks(
            *pattern,
            extra,
        ),
        Pattern::Int { location } => emit(location, NUMBER, 0),
        Pattern::ByteArray { location } => emit(location, STRING, 0),
        Pattern::List { elements, tail, .. } => patterns_marks(elements@, extra) + match tail {
            Some(t) => pattern_marks(*t, extra),
            None => Seq::empty(),
        },
        Pattern::Pair { fst, snd, .. } => pattern_marks(*fst, extra) + pattern_marks(*snd, extra),
        Pattern::Tuple { elems, .. } => patterns_marks(elems@, extra),
        Pattern::Constructor { location, arguments } => emit(location, ENUM_MEMBER, 0)
            + patterns_marks(arguments@, extra),
        Pattern::Discard { .. } => Seq::empty(),
    }
}

pub open spec fn patterns_marks(s: Seq<Pattern>, extra: u32) -> Seq<Mark>
    decreases s,
{
    if s.len() == 0 {
        Seq::empty()
    } else {
        patterns_marks(s.drop_last(), extra) + pattern_marks(s.last(), extra)
    }
}

pub open spec fn arg_marks(a: Arg) -> Seq<Mark> {
    emit(a.location, VARIABLE, DECLARATION_BIT) + match a.annotation {
        Some(ann) => annotation_marks(ann),
        None => Seq::empty(),
    }
}

pub open spec fn args_marks(s: Seq<Arg>) -> Seq<Mark>
    decreases s.len(),
{
    if s.len() == 0 {
        Seq::empty()
    } else {
        args_marks(s.drop_last()) + arg_marks(s.last())
    }
}

pub open spec fn expr_marks(e: Expr) -> Seq<Mark>
    decreases e,
{
    match e {
        Expr::UInt { location } => emit(location, NUMBER, 0),
        Expr::String { location } => emit(location, STRING, 0),
        Expr::ByteArray { location } => emit(location, STRING, 0),
        Expr::CurvePoint { location } => emit(location, STRING, 0),
        Expr::Sequence { expressions, .. } => exprs_marks(expressions@),
        Expr::Pipeline { expressions, .. } => exprs_marks(expressions@),
        Expr::Var { location, .. } => emit(location, FUNCTION, 0),
        Expr::Fn { args, body, .. } => args_marks(args@) + expr_marks(*body),
        Expr::List { elements, tail, .. } => exprs_marks(elements@) + match tail {
            Some(t) => expr_marks(*t),
            None => Seq::empty(),
        },
        Expr::Call { fun, args, .. } => expr_marks(*fun) + call_args_marks(args@),
        Expr::BinOp { location, left, right } => emit(location, OPERATOR, 0) + expr_marks(*left)
            + expr_marks(*right),
        Expr::Assignment { value, pattern, .. } => pattern_marks(pattern, DECLARATION_BIT)
            + expr_marks(*value),
        Expr::Trace { next, text, .. } => expr_marks(*next) + expr_marks(*text),
        Expr::When { subject, clauses, .. } => expr_marks(*subject) + clauses_marks(clauses@),
        Expr::If { branches, final_else, .. } => branches_marks(branches@) + expr_marks(
            *final_else,
        ),
        Expr::RecordAccess { record, .. } => expr_marks(*record),
        Expr::ModuleSelect { location, .. } => emit(location, CONSTRUCTOR, 0),
        Expr::Tuple { elems, .. } => exprs_marks(elems@),
        Expr::Pair { fst, snd, .. } => expr_marks(*fst) + expr_marks(*snd),
        Expr::TupleIndex { tuple, .. } => expr_marks(*tuple),
        Expr::RecordUpdate { spread, args, .. } => expr_marks(*spread) + call_args_marks(args@),
        Expr::UnOp { location, value } => emit(location, OPERATOR, 0) + expr_marks(*value),
        Expr::ErrorTerm { .. } => Seq::empty(),
    }
}

pub open spec fn exprs_marks(s: Seq<Expr>) -> Seq<Mark>
    decreases s,
{
    if s.len() == 0 {
        Seq::empty()
    } else {
        exprs_marks(s.drop_last()) + expr_marks(s.last())
    }
}

/// A sequence or pipeline adds no token of its own: its marks are its expressions'
/// marks, one after another.
pub proof fn lemma_sequence_marks(location: Span, expressions: Vec<Expr>, s: Seq<Expr>, e: Expr)
    ensures
        expr_marks(Expr::Sequence { location, expressions }) == exprs_marks(expressions@),
        expr_marks(Expr::Pipeline { location, expressions }) == exprs_marks(expressions@),
        exprs_marks(Seq::<Expr>::empty()) == Seq::<Mark>::empty(),
        exprs_marks(s.push(e)) == exprs_marks(s) + expr_marks(e),
{
    assert(s.push(e).drop_last() == s);
}

pub open spec fn call_args_marks(s: Seq<CallArg>) -> Seq<Mark>
    decreases s,
{
    if s.len() == 0 {
        Seq::empty()
    } else {
        call_args_marks(s.drop_last()) + expr_marks(s.last().value)
    }
}

pub open spec fn clauses_marks(s: Seq<Clause>) -> Seq<Mark>
    decreases s,
{
    if s.len() == 0 {
        Seq::empty()
    } else {
        clauses_marks(s.drop_last()) + pattern_marks(s.last().pattern, 0) + expr_marks(
            s.last().body,
        )
    }
}

pub open spec fn branches_marks(s: Seq<IfBranch>) -> Seq<Mark>
    decreases s,
{
    if s.len() == 0 {
        Seq::empty()
    } else {
        branches_marks(s.drop_last()) + match s.last().is_pattern {
            Some(p) => pattern_marks(p, DECLARATION_BIT),
            None => Seq::empty(),
        } + expr_marks(s.last().condition) + expr_marks(s.last().body)
    }
}

pub open spec fn function_marks(f: Function) -> Seq<Mark> {
    emit(f.location, FUNCTION, DECLARATION_BIT) + args_marks(f.arguments@) + expr_marks(f.body)
}

pub open spec fn functions_marks(s: Seq<Function>) -> Seq<Mark>
    decreases s.len(),
{
    if s.len() == 0 {
        Seq::empty()
    } else {
        functions_marks(s.drop_last()) + function_marks(s.last())
    }
}

pub open spec fn constructors_marks(s: Seq<RecordConstructor>) -> Seq<Mark>
    decreases s.len(),
{
    if s.len() == 0 {
        Seq::empty()
    } else {
        constructors_marks(s.drop_last()) + emit(s.last().location, CONSTRUCTOR, DECLARATION_BIT)
            + annotations_marks(s.last().field_annotations@)
    }
}

/// Marks of a list of spans, all of one token type and modifier set.
pub open spec fn spans_marks(s: Seq<Span>, token_type: u32, token_modifiers: u32) -> Seq<Mark>
    decreases s.len(),
{
    if s.len() == 0 {
        Seq::empty()
    } else {
        spans_marks(s.drop_last(), token_type, token_modifiers) + emit(
            s.last(),
            token_type,
            token_modifiers,
        )
    }
}

pub open spec fn definition_marks(d: Definition) -> Seq<Mark> {
    match d {
        Definition::Fn(f) => function_marks(f),
        Definition::Test(f) => function_marks(f),
        Definition::Benchmark(f) => function_marks(f),
        Definition::TypeAlias { location, annotation, .. } => emit(location, CLASS, DECLARATION_BIT)
            + annotation_marks(annotation),
        Definition::DataType { location, constructors, .. } => emit(
            location,
            CLASS,
            DECLARATION_BIT,
        ) + constructors_marks(constructors@),
        Definition::ModuleConstant { location, annotation, value, .. } => emit(
            location,
            VARIABLE,
            READONLY_BIT,
        ) + match annotation {
            Some(a) => annotation_marks(a),
            None => Seq::empty(),
        } + expr_marks(value),
        Definition::Validator(v) => emit(v.location, CLASS, DECLARATION_BIT) + args_marks(
            v.params@,
        ) + functions_marks(v.handlers@) + args_marks(v.fallback.arguments@) + expr_marks(
            v.fallback.body,
        ),
        Definition::Use { location, unqualified, .. } => emit(location, NAMESPACE, 0) + spans_marks(
            unqualified@,
            FUNCTION,
            0,
        ),
    }
}

pub open spec fn definitions_marks(s: Seq<Definition>) -> Seq<Mark>
    decreases s.len(),
{
    if s.len() == 0 {
        Seq::empty()
    } else {
        definitions_marks(s.drop_last()) + definition_marks(s.last())
    }
}

/// Collects marks; the conversion to line and column happens once all are in.
pub struct RawCollector<'a> {
    pub line_numbers: &'a LineNumbers,
    pub marks: Vec<Mark>,
}

impl<'a> RawCollector<'a> {
    pub fn new(line_numbers: &'a LineNumbers) -> (r: Self)
        ensures
            r.line_numbers == line_numbers,
            r.marks@ == Seq::<Mark>::empty(),
    {
        RawCollector { line_numbers, marks: Vec::new() }
    }

    /// Records a span, unless its token length is 0.
    pub fn push(&mut self, span: Span, token_type: u32, token_modifiers: u32)
        ensures
            final(self).line_numbers == old(self).line_numbers,
            final(self).marks@ == old(self).marks@ + emit(span, token_type, token_modifiers),
    {
        let diff = span.end.saturating_sub(span.start);
        let length = diff as u32;
        if length == 0 {
            return;
        }
        self.marks.push(Mark { span, token_type, token_modifiers });
    }

    fn collect_annotation(&mut self, a: &Annotation)
        ensures
            final(self).line_numbers == old(self).line_numbers,
            final(self).marks@ == old(self).marks@ + annotation_marks(*a),
        decreases a,
    {
        match a {
            Annotation::Constructor { location, arguments } => {
                self.push(*location, TYPE, 0);
                self.collect_annotations(arguments);
            },
            Annotation::Fn { arguments, ret } => {
                self.collect_annotations(arguments);
                self.collect_annotation(ret);
            },
            Annotation::Var { location } => {
                self.push(*location, TYPE, 0);
            },
            Annotation::Tuple { elems } => {
                self.collect_annotations(elems);
            },
            Annotation::Pair { fst, snd } => {
                self.collect_annotation(fst);
                self.collect_annotation(snd);
            },
            Annotation::Hole => {},
        }
    }

    fn collect_annotations(&mut self, s: &Vec<Annotation>)
        ensures
            final(self).line_numbers == old(self).line_numbers,
            final(self).marks@ == old(self).marks@ + annotations_marks(s@),
        decreases s,
    {
        let n = s.len();
        let mut i: usize = 0;
        while i < n
            invariant
                n == s@.len(),
                i <= n,
                self.line_numbers == old(self).line_numbers,
                self.marks@ == old(self).marks@ + annotations_marks(s@.take(i as int)),
            decreases n - i,
        {
            assert(s@.take(i + 1).drop_last() == s@.take(i as int));
            self.collect_annotation(&s[i]);
            i = i + 1;
        }
        assert(s@.take(n as int) == s@);
    }

    fn collect_pattern(&mut self, p: &Pattern, extra: u32)
        ensures
            final(self).line_numbers == old(self).line_numbers,
            final(self).marks@ == old(self).marks@ + pattern_marks(*p, extra),
        decreases p,
    {
        match p {
            Pattern::Var { location } => {
                self.push(*location, VARIABLE, extra);
            },
            Pattern::Assign { location, pattern } => {
                self.push(*location, VARIABLE, extra);
                self.collect_pattern(pattern, extra);
            },
            Pattern::Int { location } => {
                self.push(*location, NUMBER, 0);
            },
            Pattern::ByteArray { location } => {
                self.push(*location, STRING, 0);
            },
            Pattern::List { elements, tail, .. } => {
                self.collect_patterns(elements, extra);
                match tail {
                    Some(t) => self.collect_pattern(t, extra),
                    None => {},
                }
            },
            Pattern::Pair { fst, snd, .. } => {
                self.collect_pattern(fst, extra);
                self.collect_pattern(snd, extra);
            },
            Pattern::Tuple { elems, .. } => {
                self.collect_patterns(elems, extra);
            },
            Pattern::Constructor { location, arguments } => {
                self.push(*location, ENUM_MEMBER, 0);
                self.collect_patterns(arguments, extra);
            },
            Pattern::Discard { .. } => {},
        }
    }

    fn collect_patterns(&mut self, s: &Vec<Pattern>, extra: u32)
        ensures
            final(self).line_numbers == old(self).line_numbers,
            final(self).marks@ == old(self).marks@ + patterns_marks(s@, extra),
        decreases s,
    {
        let n = s.len();
        let mut i: usize = 0;
        while i < n
            invariant
                n == s@.len(),
                i <= n,
                self.line_numbers == old(self).line_numbers,
                self.marks@ == old(self).marks@ + patterns_marks(s@.take(i as int), extra),
            decreases n - i,
        {
            assert(s@.take(i + 1).drop_last() == s@.take(i as int));
            self.collect_pattern(&s[i], extra);
            i = i + 1;
        }
        assert(s@.take(n as int) == s@);
    }

    fn collect_arg(&mut self, a: &Arg)
        ensures
            final(self).line_numbers == old(self).line_numbers,
            final(self).marks@ == old(self).marks@ + arg_marks(*a),
    {
        self.push(a.location, VARIABLE, DECLARATION_BIT);
        match &a.annotation {
            Some(ann) => self.collect_annotation(ann),
            None => {},
        }
    }

    fn collect_args(&mut self, s: &Vec<Arg>)
        ensures
            final(self).line_numbers == old(self).line_numbers,
            final(self).marks@ == old(self).marks@ + args_marks(s@),
    {
        let n = s.len();
        let mut i: usize = 0;
        while i < n
            invariant
                n == s@.len(),
                i <= n,
                self.line_numbers == old(self).line_numbers,
                self.marks@ == old(self).marks@ + args_marks(s@.take(i as int)),
            decreases n - i,
        {
            assert(s@.take(i + 1).drop_last() == s@.take(i as int));
            self.collect_arg(&s[i]);
            i = i + 1;
        }
        assert(s@.take(n as int) == s@);
    }

    fn collect_expr(&mut self, e: &Expr)
        ensures
            final(self).line_numbers == old(self).line_numbers,
            final(self).marks@ == old(self).marks@ + expr_marks(*e),
        decreases e,
    {
        match e {
            Expr::UInt { location } => {
                self.push(*location, NUMBER, 0);
            },
            Expr::String { location } => {
                self.push(*location, STRING, 0);
            },
            Expr::ByteArray { location } => {
                self.push(*location, STRING, 0);
            },
            Expr::CurvePoint { location } => {
                self.push(*location, STRING, 0);
            },
            Expr::Sequence { expressions, .. } => {
                self.collect_exprs(expressions);
            },
            Expr::Pipeline { expressions, .. } => {
                self.collect_exprs(expressions);
            },
            Expr::Var { location, .. } => {
                self.push(*location, FUNCTION, 0);
            },
            Expr::Fn { args, body, .. } => {
                self.collect_args(args);
                self.collect_expr(body);
            },
            Expr::List { elements, tail, .. } => {
                self.collect_exprs(elements);
                match tail {
                    Some(t) => self.collect_expr(t),
                    None => {},
                }
            },
            Expr::Call { fun, args, .. } => {
                self.collect_expr(fun);
                self.collect_call_args(args);
            },
            Expr::BinOp { location, left, right } => {
                self.push(*location, OPERATOR, 0);
                self.collect_expr(left);
                self.collect_expr(right);
            },
            Expr::Assignment { value, pattern, .. } => {
                self.collect_pattern(pattern, DECLARATION_BIT);
                self.collect_expr(value);
            },
            Expr::Trace { next, text, .. } => {
                self.collect_expr(next);
                self.collect_expr(text);
            },
            Expr::When { subject, clauses, .. } => {
                self.collect_expr(subject);
                self.collect_clauses(clauses);
            },
            Expr::If { branches, final_else, .. } => {
                self.collect_branches(branches);
                self.collect_expr(final_else);
            },
            Expr::RecordAccess { record, .. } => {
                self.collect_expr(record);
            },
            Expr::ModuleSelect { location, .. } => {
                self.push(*location, CONSTRUCTOR, 0);
            },
            Expr::Tuple { elems, .. } => {
                self.collect_exprs(elems);
            },
            Expr::Pair { fst, snd, .. } => {
                self.collect_expr(fst);
                self.collect_expr(snd);
            },
            Expr::TupleIndex { tuple, .. } => {
                self.collect_expr(tuple);
            },
            Expr::RecordUpdate { spread, args, .. } => {
                self.collect_expr(spread);
                self.collect_call_args(args);
            },
            Expr::UnOp { location, value } => {
                self.push(*location, OPERATOR, 0);
                self.collect_expr(value);
            },
            Expr::ErrorTerm { .. } => {},
        }
    }

    fn collect_exprs(&mut self, s: &Vec<Expr>)
        ensures
            final(self).line_numbers == old(self).line_numbers,
            final(self).marks@ == old(self).marks@ + exprs_marks(s@),
        decreases s,
    {
        let n = s.len();
        let mut i: usize = 0;
        while i < n
            invariant
                n == s@.len(),
                i <= n,
                self.line_numbers == old(self).line_numbers,
                self.marks@ == old(self).marks@ + exprs_marks(s@.take(i as int)),
            decreases n - i,
        {
            assert(s@.take(i + 1).drop_last() == s@.take(i as int));
            self.collect_expr(&s[i]);
            i = i + 1;
        }
        assert(s@.take(n as int) == s@);
    }

    fn collect_call_args(&mut self, s: &Vec<CallArg>)
        ensures
            final(self).line_numbers == old(self).line_numbers,
            final(self).marks@ == old(self).marks@ + call_args_marks(s@),
        decreases s,
    {
        let n = s.len();
        let mut i: usize = 0;
        while i < n
            invariant
                n == s@.len(),
                i <= n,
                self.line_numbers == old(self).line_numbers,
                self.marks@ == old(self).marks@ + call_args_marks(s@.take(i as int)),
            decreases n - i,
        {
            assert(s@.take(i + 1).drop_last() == s@.take(i as int));
            self.collect_expr(&s[i].value);
            i = i + 1;
        }
        assert(s@.take(n as int) == s@);
    }

    fn collect_clauses(&mut self, s: &Vec<Clause>)
        ensures
            final(self).line_numbers == old(self).line_numbers,
            final(self).marks@ == old(self).marks@ + clauses_marks(s@),
        decreases s,
    {
        let n = s.len();
        let mut i: usize = 0;
        while i < n
            invariant
                n == s@.len(),
                i <= n,
                self.line_numbers == old(self).line_numbers,
                self.marks@ == old(self).marks@ + clauses_marks(s@.take(i as int)),
            decreases n - i,
        {
            assert(s@.take(i + 1).drop_last() == s@.take(i as int));
            self.collect_pattern(&s[i].pattern, 0);
            self.collect_expr(&s[i].body);
            i = i + 1;
        }
        assert(s@.take(n as int) == s@);
    }

    fn collect_branches(&mut self, s: &Vec<IfBranch>)
        ensures
            final(self).line_numbers == old(self).line_numbers,
            final(self).marks@ == old(self).marks@ + branches_marks(s@),
        decreases s,
    {
        let n = s.len();
        let mut i: usize = 0;
        while i < n
            invariant
                n == s@.len(),
                i <= n,
                self.line_numbers == old(self).line_numbers,
                self.marks@ == old(self).marks@ + branches_marks(s@.take(i as int)),
            decreases n - i,
        {
            assert(s@.take(i + 1).drop_last() == s@.take(i as int));
            match &s[i].is_pattern {
                Some(p) => self.collect_pattern(p, DECLARATION_BIT),
                None => {},
            }
            self.collect_expr(&s[i].condition);
            self.collect_expr(&s[i].body);
            i = i + 1;
        }
        assert(s@.take(n as int) == s@);
    }

    fn collect_function(&mut self, f: &Function)
        ensures
            final(self).line_numbers == old(self).line_numbers,
            final(self).marks@ == old(self).marks@ + function_marks(*f),
    {
        self.push(f.location, FUNCTION, DECLARATION_BIT);
        self.collect_args(&f.arguments);
        self.collect_expr(&f.body);
    }

    fn collect_functions(&mut self, s: &Vec<Function>)
        ensures
            final(self).line_numbers == old(self).line_numbers,
            final(self).marks@ == old(self).marks@ + functions_marks(s@),
    {
        let n = s.len();
        let mut i: usize = 0;
        while i < n
            invariant
                n == s@.len(),
                i <= n,
                self.line_numbers == old(self).line_numbers,
                self.marks@ == old(self).marks@ + functions_marks(s@.take(i as int)),
            decreases n - i,
        {
            assert(s@.take(i + 1).drop_last() == s@.take(i as int));
            self.collect_function(&s[i]);
            i = i + 1;
        }
        assert(s@.take(n as int) == s@);
    }

    fn collect_spans(&mut self, s: &Vec<Span>, token_type: u32, token_modifiers: u32)
        ensures
            final(self).line_numbers == old(self).line_numbers,
            final(self).marks@ == old(self).marks@ + spans_marks(s@, token_type, token_modifiers),
    {
        let n = s.len();
        let mut i: usize = 0;
        while i < n
            invariant
                n == s@.len(),
                i <= n,
                self.line_numbers == old(self).line_numbers,
                self.marks@ == old(self).marks@ + spans_marks(
                    s@.take(i as int),
                    token_type,
                    token_modifiers,
                ),
            decreases n - i,
        {
            assert(s@.take(i + 1).drop_last() == s@.take(i as int));
            self.push(s[i], token_type, token_modifiers);
            i = i + 1;
        }
        assert(s@.take(n as int) == s@);
    }

    /// Records the spans of one top-level definition.
    pub fn collect_definition(&mut self, d: &Definition)
        ensures
            final(self).line_numbers == old(self).line_numbers,
            final(self).marks@ == old(self).marks@ + definition_marks(*d),
    {
        match d {
            Definition::Fn(f) => self.collect_function(f),
            Definition::Test(f) => self.collect_function(f),
            Definition::Benchmark(f) => self.collect_function(f),
            Definition::TypeAlias { location, annotation, .. } => {
                self.push(*location, CLASS, DECLARATION_BIT);
                self.collect_annotation(annotation);
            },
            Definition::DataType { location, constructors, .. } => {
                self.push(*location, CLASS, DECLARATION_BIT);
                let n = constructors.len();
                let mut i: usize = 0;
                let ghost start = self.marks@;
                while i < n
                    invariant
                        n == constructors@.len(),
                        i <= n,
                        self.line_numbers == old(self).line_numbers,
                        self.marks@ == start + constructors_marks(constructors@.take(i as int)),
                    decreases n - i,
                {
                    assert(constructors@.take(i + 1).drop_last() == constructors@.take(i as int));
                    self.push(constructors[i].location, CONSTRUCTOR, DECLARATION_BIT);
                    self.collect_annotations(&constructors[i].field_annotations);
                    i = i + 1;
                }
                assert(constructors@.take(n as int) == constructors@);
            },
            Definition::ModuleConstant { location, annotation, value, .. } => {
                self.push(*location, VARIABLE, READONLY_BIT);
                match annotation {
                    Some(a) => self.collect_annotation(a),
                    None => {},
                }
                self.collect_expr(value);
            },
            Definition::Validator(v) => {
                self.push(v.location, CLASS, DECLARATION_BIT);
                self.collect_args(&v.params);
                self.collect_functions(&v.handlers);
                self.collect_args(&v.fallback.arguments);
                self.collect_expr(&v.fallback.body);
            },
            Definition::Use { location, unqualified, .. } => {
                self.push(*location, NAMESPACE, 0);
                self.collect_spans(unqualified, FUNCTION, 0);
            },
        }
    }
}


/// Whether a byte can begin an identifier: an ASCII letter or an underscore.
pub open spec fn ident_start_byte(b: u8) -> bool {
    (65 <= b <= 90) || (97 <= b <= 122) || b == 95
}

/// Whether a byte can continue an identifier: an ASCII letter, digit or underscore.
pub open spec fn ident_continue_byte(b: u8) -> bool {
    ident_start_byte(b) || (48 <= b <= 57)
}

pub fn is_ident_start(b: u8) -> (r: bool)
    ensures
        r == ident_start_byte(b),
{
    (b >= 65u8 && b <= 90u8) || (b >= 97u8 && b <= 122u8) || b == 95u8
}

pub fn is_ident_continue(b: u8) -> (r: bool)
    ensures
        r == ident_continue_byte(b),
{
    is_ident_start(b) || (b >= 48u8 && b <= 57u8)
}

/// ASCII lowercasing of one byte.
pub open spec fn ascii_lower(b: u8) -> u8 {
    if 65 <= b <= 90 {
        (b + 32) as u8
    } else {
        b
    }
}

/// The keywords that are highlighted, in lowercase ASCII: as, const, else, expect,
/// fail, fn, if, is, let, opaque, pub, test, todo, trace, type, use, validator, via,
/// when, and, or, bench.
pub open spec fn keyword_list() -> Seq<Seq<u8>> {
    seq![
        seq![97u8, 115u8],
        seq![99u8, 111u8, 110u8, 115u8, 116u8],
        seq![101u8, 108u8, 115u8, 101u8],
        seq![101u8, 120u8, 112u8, 101u8, 99u8, 116u8],
        seq![102u8, 97u8, 105u8, 108u8],
        seq![102u8, 110u8],
        seq![105u8, 102u8],
        seq![105u8, 115u8],
        seq![108u8, 101u8, 116u8],
        seq![111u8, 112u8, 97u8, 113u8, 117u8, 101u8],
        seq![112u8, 117u8, 98u8],
        seq![116u8, 101u8, 115u8, 116u8],
        seq![116u8, 111u8, 100u8, 111u8],
        seq![116u8, 114u8, 97u8, 99u8, 101u8],
        seq![116u8, 121u8, 112u8, 101u8],
        seq![117u8, 115u8, 101u8],
        seq![118u8, 97u8, 108u8, 105u8, 100u8, 97u8, 116u8, 111u8, 114u8],
        seq![118u8, 105u8, 97u8],
        seq![119u8, 104u8, 101u8, 110u8],
        seq![97u8, 110u8, 100u8],
        seq![111u8, 114u8],
        seq![98u8, 101u8, 110u8, 99u8, 104u8],
    ]
}

/// ASCII lowercasing of a byte string.
pub open spec fn lower_word(word: Seq<u8>) -> Seq<u8> {
    word.map_values(|b: u8| ascii_lower(b))
}

/// Whether an identifier is a keyword, ignoring ASCII case.
pub open spec fn is_keyword(word: Seq<u8>) -> bool {
    keyword_list().contains(lower_word(word))
}

/// The end of the identifier run that continues at `j`.
pub open spec fn word_end(bytes: Seq<u8>, j: int) -> int
    decreases bytes.len() - j,
{
    if j < 0 || j >= bytes.len() || !ident_continue_byte(bytes[j]) {
        j
    } else {
        word_end(bytes, j + 1)
    }
}

/// An identifier run ends within the text, on a byte that does not continue it, and
/// every byte before its end continues it.
pub proof fn lemma_word_end(bytes: Seq<u8>, j: int)
    requires
        0 <= j <= bytes.len(),
    ensures
        j <= word_end(bytes, j) <= bytes.len(),
        word_end(bytes, j) < bytes.len() ==> !ident_continue_byte(bytes[word_end(bytes, j)]),
        forall|k: int| j <= k < word_end(bytes, j) ==> ident_continue_byte(bytes[k]),
    decreases bytes.len() - j,
{
    if j < bytes.len() && ident_continue_byte(bytes[j]) {
        lemma_word_end(bytes, j + 1);
    }
}

/// The keyword marks of `bytes` from offset `i` on: the text is read as runs of
/// identifier bytes that begin at an identifier-start byte, and each run that is a
/// keyword is marked.
pub open spec fn keyword_marks_from(bytes: Seq<u8>, i: int) -> Seq<Mark>
    decreases bytes.len() - i,
{
    if i < 0 || i >= bytes.len() {
        Seq::empty()
    } else if !ident_start_byte(bytes[i]) {
        keyword_marks_from(bytes, i + 1)
    } else {
        let e = word_end(bytes, i + 1);
        proof {
            lemma_word_end(bytes, i + 1);
        }
        (if is_keyword(bytes.subrange(i, e)) {
            emit(Span { start: i as usize, end: e as usize }, KEYWORD, 0)
        } else {
            Seq::empty()
        }) + keyword_marks_from(bytes, e)
    }
}

/// Every keyword mark covers a whole identifier run that is a keyword: it begins at
/// an identifier-start byte, ends where identifier bytes stop, and is marked as a
/// keyword without modifiers.
pub proof fn lemma_keyword_marks(bytes: Seq<u8>, i: int)
    requires
        bytes.len() < usize::MAX,
        i >= 0,
    ensures
        forall|k: int|
            0 <= k < keyword_marks_from(bytes, i).len() ==> {
                let m = #[trigger] keyword_marks_from(bytes, i)[k];
                &&& m.token_type == KEYWORD
                &&& m.token_modifiers == 0
                &&& i <= m.span.start < m.span.end <= bytes.len()
                &&& ident_start_byte(bytes[m.span.start as int])
                &&& (m.span.end == bytes.len() || !ident_continue_byte(bytes[m.span.end as int]))
                &&& is_keyword(bytes.subrange(m.span.start as int, m.span.end as int))
            },
    decreases bytes.len() - i,
{
    if i < bytes.len() {
        if !ident_start_byte(bytes[i]) {
            lemma_keyword_marks(bytes, i + 1);
            assert(keyword_marks_from(bytes, i) == keyword_marks_from(bytes, i + 1));
        } else {
            let e = word_end(bytes, i + 1);
            lemma_word_end(bytes, i + 1);
            lemma_keyword_marks(bytes, e);
            let head = if is_keyword(bytes.subrange(i, e)) {
                emit(Span { start: i as usize, end: e as usize }, KEYWORD, 0)
            } else {
                Seq::empty()
            };
            let rest = keyword_marks_from(bytes, e);
            assert(keyword_marks_from(bytes, i) == head + rest);
            assert forall|k: int| 0 <= k < keyword_marks_from(bytes, i).len() implies {
                let m = #[trigger] keyword_marks_from(bytes, i)[k];
                &&& m.token_type == KEYWORD
                &&& m.token_modifiers == 0
                &&& i <= m.span.start < m.span.end <= bytes.len()
                &&& ident_start_byte(bytes[m.span.start as int])
                &&& (m.span.end == bytes.len() || !ident_continue_byte(bytes[m.span.end as int]))
                &&& is_keyword(bytes.subrange(m.span.start as int, m.span.end as int))
            } by {
                if k >= head.len() {
                    assert(keyword_marks_from(bytes, i)[k] == rest[k - head.len()]);
                } else {
                    assert(keyword_marks_from(bytes, i)[k] == head[k]);
                    assert(head[k].span == Span { start: i as usize, end: e as usize });
                    assert(head[k].span.start as int == i);
                    assert(head[k].span.end as int == e);
                }
            }
        }
    }
}

fn keyword_table() -> (r: Vec<Vec<u8>>)
    ensures
        r@.len() == keyword_list().len(),
        forall|k: int| 0 <= k < r@.len() ==> #[trigger] r@[k]@ == keyword_list()[k],
{
    let r = vec![
        vec![97u8, 115u8],
        vec![99u8, 111u8, 110u8, 115u8, 116u8],
        vec![101u8, 108u8, 115u8, 101u8],
        vec![101u8, 120u8, 112u8, 101u8, 99u8, 116u8],
        vec![102u8, 97u8, 105u8, 108u8],
        vec![102u8, 110u8],
        vec![105u8, 102u8],
        vec![105u8, 115u8],
        vec![108u8, 101u8, 116u8],
        vec![111u8, 112u8, 97u8, 113u8, 117u8, 101u8],
        vec![112u8, 117u8, 98u8],
        vec![116u8, 101u8, 115u8, 116u8],
        vec![116u8, 111u8, 100u8, 111u8],
        vec![116u8, 114u8, 97u8, 99u8, 101u8],
        vec![116u8, 121u8, 112u8, 101u8],
        vec![117u8, 115u8, 101u8],
        vec![118u8, 97u8, 108u8, 105u8, 100u8, 97u8, 116u8, 111u8, 114u8],
        vec![118u8, 105u8, 97u8],
        vec![119u8, 104u8, 101u8, 110u8],
        vec![97u8, 110u8, 100u8],
        vec![111u8, 114u8],
        vec![98u8, 101u8, 110u8, 99u8, 104u8],
    ];
    r
}

fn slices_equal(a: &[u8], b: &[u8]) -> (r: bool)
    ensures
        r == (a@ == b@),
{
    if a.len() != b.len() {
        return false;
    }
    let mut k: usize = 0;
    while k < a.len()
        invariant
            a@.len() == b@.len(),
            k <= a@.len(),
            forall|m: int| 0 <= m < k ==> a@[m] == b@[m],
        decreases a@.len() - k,
    {
        if a[k] != b[k] {
            return false;
        }
        k = k + 1;
    }
    assert(a@ =~= b@);
    true
}

/// Whether the identifier `bytes[start..end]` is a keyword once ASCII-lowercased
/// (identifier bytes are ASCII, where lowercasing is ASCII lowercasing).
fn word_is_keyword(bytes: &[u8], start: usize, end: usize, table: &Vec<Vec<u8>>) -> (r: bool)
    requires
        start <= end <= bytes@.len(),
        table@.len() == keyword_list().len(),
        forall|k: int| 0 <= k < table@.len() ==> #[trigger] table@[k]@ == keyword_list()[k],
    ensures
        r == is_keyword(bytes@.subrange(start as int, end as int)),
{
    let ghost word = bytes@.subrange(start as int, end as int);
    let mut lower: Vec<u8> = Vec::new();
    let mut j = start;
    while j < end
        invariant
            start <= j <= end <= bytes@.len(),
            lower@ == lower_word(bytes@.subrange(start as int, j as int)),
        decreases end - j,
    {
        let b = bytes[j];
        let l = if b >= 65u8 && b <= 90u8 {
            b + 32
        } else {
            b
        };
        lower.push(l);
        j = j + 1;
        assert(lower@ =~= lower_word(bytes@.subrange(start as int, j as int)));
    }
    let n = table.len();
    let mut k: usize = 0;
    while k < n
        invariant
            n == table@.len(),
            table@.len() == keyword_list().len(),
            forall|m: int| 0 <= m < table@.len() ==> #[trigger] table@[m]@ == keyword_list()[m],
            k <= n,
            lower@ == lower_word(word),
            word == bytes@.subrange(start as int, end as int),
            forall|m: int| 0 <= m < k ==> keyword_list()[m] != lower@,
        decreases n - k,
    {
        if slices_equal(lower.as_slice(), table[k].as_slice()) {
            assert(keyword_list()[k as int] == lower@);
            assert(keyword_list().contains(lower@));
            return true;
        }
        k = k + 1;
    }
    assert(!keyword_list().contains(lower@)) by {
        if keyword_list().contains(lower@) {
            let m = choose|m: int| 0 <= m < keyword_list().len() && keyword_list()[m] == lower@;
            assert(keyword_list()[m] != lower@);
        }
    }
    false
}

/// Records every keyword of `source`.
pub fn collect_keywords(collector: &mut RawCollector<'_>, source: &str, line_numbers: &LineNumbers)
    ensures
        final(collector).line_numbers == old(collector).line_numbers,
        final(collector).marks@ == old(collector).marks@ + keyword_marks_from(
            source.spec_bytes(),
            0,
        ),
{
    let bytes = source.as_bytes();
    let len = bytes.len();
    let table = keyword_table();
    let ghost all = bytes@;
    let ghost goal = old(collector).marks@ + keyword_marks_from(all, 0);
    let mut i: usize = 0;
    while i < len
        invariant
            len == all.len(),
            bytes@ == all,
            i <= len,
            collector.line_numbers == old(collector).line_numbers,
            collector.marks@ + keyword_marks_from(all, i as int) == goal,
            table@.len() == keyword_list().len(),
            forall|k: int| 0 <= k < table@.len() ==> #[trigger] table@[k]@ == keyword_list()[k],
        decreases len - i,
    {
        let ghost i0 = i;
        while i < len && !is_ident_start(bytes[i])
            invariant
                len == all.len(),
                bytes@ == all,
                i0 <= i <= len,
                collector.marks@ + keyword_marks_from(all, i as int) == goal,
            decreases len - i,
        {
            i = i + 1;
        }
        if i < len {
            let start = i;
            i = i + 1;
            proof {
                lemma_word_end(all, i as int);
            }
            while i < len && is_ident_continue(bytes[i])
                invariant
                    len == all.len(),
                    bytes@ == all,
                    start < i <= len,
                    word_end(all, i as int) == word_end(all, start + 1),
                decreases len - i,
            {
                i = i + 1;
            }
            assert(word_end(all, i as int) == i);
            if word_is_keyword(bytes, start, i, &table) {
                collector.push(Span { start, end: i }, KEYWORD, 0);
            }
        }
    }
    assert(keyword_marks_from(all, i as int) == Seq::<Mark>::empty());
    let _ = line_numbers;
}


/// A token at a zero-based line and column, before relative encoding.
#[derive(Clone, Copy, Debug, PartialEq, Eq)]
pub struct RawToken {
    pub line: u32,
    pub start_char: u32,
    pub length: u32,
    pub token_type: u32,
    pub token_modifiers: u32,
}

/// The token of a mark: the editor position of its start, its length and kind.
pub open spec fn token_of(bytes: Seq<u8>, m: Mark) -> RawToken {
    let p = position_of(bytes, m.span.start);
    RawToken {
        line: p.line,
        start_char: p.character,
        length: span_len(m.span),
        token_type: m.token_type,
        token_modifiers: m.token_modifiers,
    }
}

pub open spec fn tokens_of(bytes: Seq<u8>, marks: Seq<Mark>) -> Seq<RawToken> {
    marks.map_values(|m: Mark| token_of(bytes, m))
}

/// Whether every mark's start has a line and column in `bytes`.
pub open spec fn marks_resolvable(bytes: Seq<u8>, marks: Seq<Mark>) -> bool {
    forall|i: int| 0 <= i < marks.len() ==> resolvable(bytes, #[trigger] marks[i].span.start)
}

impl<'a> RawCollector<'a> {
    /// The tokens of the recorded marks, in the order they were recorded.
    pub fn tokens(&self) -> (r: Vec<RawToken>)
        requires
            self.line_numbers.wf(),
            marks_resolvable(self.line_numbers.text(), self.marks@),
        ensures
            r@ == tokens_of(self.line_numbers.text(), self.marks@),
    {
        let ghost bytes = self.line_numbers.text();
        let mut out: Vec<RawToken> = Vec::new();
        let n = self.marks.len();
        let mut i: usize = 0;
        while i < n
            invariant
                n == self.marks@.len(),
                i <= n,
                self.line_numbers.wf(),
                bytes == self.line_numbers.text(),
                marks_resolvable(bytes, self.marks@),
                out@ == tokens_of(bytes, self.marks@.take(i as int)),
            decreases n - i,
        {
            let m = self.marks[i];
            assert(resolvable(bytes, self.marks@[i as int].span.start));
            let p = position_at(self.line_numbers, m.span.start);
            let length = m.span.end.saturating_sub(m.span.start) as u32;
            out.push(
                RawToken {
                    line: p.line,
                    start_char: p.character,
                    length,
                    token_type: m.token_type,
                    token_modifiers: m.token_modifiers,
                },
            );
            i = i + 1;
            assert(out@ =~= tokens_of(bytes, self.marks@.take(i as int)));
        }
        assert(self.marks@.take(n as int) == self.marks@);
        out
    }
}

/// Whether token `a` starts strictly after token `b` (by line, then column).
pub open spec fn token_after(a: RawToken, b: RawToken) -> bool {
    a.line > b.line || (a.line == b.line && a.start_char > b.start_char)
}

/// Inserts `x` after the last token that does not start after it.
pub open spec fn insert_token(s: Seq<RawToken>, x: RawToken) -> Seq<RawToken>
    decreases s.len(),
{
    if s.len() == 0 {
        seq![x]
    } else if token_after(s.last(), x) {
        insert_token(s.drop_last(), x).push(s.last())
    } else {
        s.push(x)
    }
}

/// The tokens in order of position; tokens at one position keep their order.
pub open spec fn sort_tokens(s: Seq<RawToken>) -> Seq<RawToken>
    decreases s.len(),
{
    if s.len() == 0 {
        s
    } else {
        insert_token(sort_tokens(s.drop_last()), s.last())
    }
}

proof fn lemma_insert_token_at(s: Seq<RawToken>, x: RawToken, p: int)
    requires
        0 <= p <= s.len(),
        forall|j: int| p <= j < s.len() ==> token_after(s[j], x),
        p == 0 || !token_after(s[p - 1], x),
    ensures
        insert_token(s, x) == s.insert(p, x),
    decreases s.len(),
{
    if s.len() == 0 {
        assert(s.insert(p, x) =~= seq![x]);
    } else if token_after(s.last(), x) {
        lemma_insert_token_at(s.drop_last(), x, p);
        assert(s.drop_last().insert(p, x).push(s.last()) =~= s.insert(p, x));
    } else {
        assert(p == s.len());
        assert(s.push(x) =~= s.insert(p, x));
    }
}

/// Sorts tokens by position, keeping tokens at one position in their order.
pub fn sort_by_position(tokens: Vec<RawToken>) -> (r: Vec<RawToken>)
    ensures
        r@ == sort_tokens(tokens@),
{
    let mut out: Vec<RawToken> = Vec::new();
    let n = tokens.len();
    let mut i: usize = 0;
    while i < n
        invariant
            n == tokens@.len(),
            i <= n,
            out@ == sort_tokens(tokens@.take(i as int)),
        decreases n - i,
    {
        let x = tokens[i];
        let mut p = out.len();
        while p > 0 && (out[p - 1].line > x.line || (out[p - 1].line == x.line
            && out[p - 1].start_char > x.start_char))
            invariant
                p <= out@.len(),
                forall|j: int| p <= j < out@.len() ==> token_after(out@[j], x),
            decreases p,
        {
            p = p - 1;
        }
        proof {
            lemma_insert_token_at(out@, x, p as int);
            assert(tokens@.take(i + 1).drop_last() == tokens@.take(i as int));
        }
        out.insert(p, x);
        i = i + 1;
    }
    assert(tokens@.take(n as int) == tokens@);
    out
}

/// Whether no token starts strictly after a later one.
/// The tokens of `s` at one position, in their order in `s`.
pub open spec fn at_position(s: Seq<RawToken>, line: u32, start_char: u32) -> Seq<RawToken>
    decreases s.len(),
{
    if s.len() == 0 {
        s
    } else {
        at_position(s.drop_last(), line, start_char) + if s.last().line == line
            && s.last().start_char == start_char {
            seq![s.last()]
        } else {
            Seq::empty()
        }
    }
}

proof fn lemma_insert_token_stable(s: Seq<RawToken>, x: RawToken, line: u32, start_char: u32)
    ensures
        at_position(insert_token(s, x), line, start_char) == at_position(s.push(x), line, start_char),
    decreases s.len(),
{
    if s.len() > 0 && token_after(s.last(), x) {
        let t = s.drop_last();
        lemma_insert_token_stable(t, x, line, start_char);
        assert(insert_token(s, x) == insert_token(t, x).push(s.last()));
        assert(insert_token(t, x).push(s.last()).drop_last() == insert_token(t, x));
        assert(t.push(x).drop_last() == t);
        assert(s.push(x).drop_last() == s);
        assert(t.push(s.last()) == s);
        let l = s.last();
        let px = if x.line == line && x.start_char == start_char { seq![x] } else { Seq::<RawToken>::empty() };
        let pl = if l.line == line && l.start_char == start_char { seq![l] } else { Seq::<RawToken>::empty() };
        assert(at_position(t.push(x), line, start_char) == at_position(t, line, start_char) + px);
        assert(at_position(insert_token(t, x).push(l), line, start_char) == at_position(
            insert_token(t, x),
            line,
            start_char,
        ) + pl);
        assert(at_position(s, line, start_char) == at_position(t, line, start_char) + pl);
        assert(at_position(s.push(x), line, start_char) == at_position(s, line, start_char) + px);
        assert(px.len() == 0 || pl.len() == 0);
        assert(px + pl =~= pl + px);
        assert(at_position(t, line, start_char) + px + pl =~= at_position(t, line, start_char) + pl + px);
    }
}

/// Sorting is stable: the tokens at any one position come out in the order they
/// went in.
pub proof fn lemma_sort_tokens_stable(s: Seq<RawToken>, line: u32, start_char: u32)
    ensures
        at_position(sort_tokens(s), line, start_char) == at_position(s, line, start_char),
    decreases s.len(),
{
    if s.len() > 0 {
        let t = s.drop_last();
        lemma_sort_tokens_stable(t, line, start_char);
        lemma_insert_token_stable(sort_tokens(t), s.last(), line, start_char);
        assert(sort_tokens(t).push(s.last()).drop_last() == sort_tokens(t));
        assert(t.push(s.last()) == s);
    }
}

pub open spec fn tokens_ordered(s: Seq<RawToken>) -> bool {
    forall|i: int, j: int| 0 <= i < j < s.len() ==> !token_after(#[trigger] s[i], #[trigger] s[j])
}

proof fn lemma_insert_token_multiset(s: Seq<RawToken>, x: RawToken)
    ensures
        insert_token(s, x).to_multiset() == s.to_multiset().insert(x),
    decreases s.len(),
{
    broadcast use vstd::seq_lib::group_to_multiset_ensures;

    if s.len() > 0 {
        let t = s.drop_last();
        assert(t.push(s.last()) == s);
        if token_after(s.last(), x) {
            lemma_insert_token_multiset(t, x);
            assert(insert_token(s, x).to_multiset() =~= s.to_multiset().insert(x));
        } else {
            assert(s.push(x).to_multiset() =~= s.to_multiset().insert(x));
        }
    } else {
        assert(seq![x] == Seq::<RawToken>::empty().push(x));
        assert(insert_token(s, x).to_multiset() =~= s.to_multiset().insert(x));
    }
}

/// Sorting tokens loses and adds none: the result holds each token as often as the
/// input does.
pub proof fn lemma_sort_tokens_permutes(s: Seq<RawToken>)
    ensures
        sort_tokens(s).to_multiset() == s.to_multiset(),
    decreases s.len(),
{
    broadcast use vstd::seq_lib::group_to_multiset_ensures;

    if s.len() > 0 {
        lemma_sort_tokens_permutes(s.drop_last());
        lemma_insert_token_multiset(sort_tokens(s.drop_last()), s.last());
        assert(s.drop_last().push(s.last()) == s);
    }
}

proof fn lemma_insert_token_ordered(s: Seq<RawToken>, x: RawToken)
    requires
        tokens_ordered(s),
    ensures
        tokens_ordered(insert_token(s, x)),
    decreases s.len(),
{
    broadcast use vstd::seq_lib::group_to_multiset_ensures;

    if s.len() > 0 {
        let t = s.drop_last();
        let last = s.last();
        if token_after(last, x) {
            assert(tokens_ordered(t));
            lemma_insert_token_ordered(t, x);
            lemma_insert_token_multiset(t, x);
            let u = insert_token(t, x);
            assert forall|i: int| 0 <= i < u.len() implies !token_after(#[trigger] u[i], last) by {
                assert(u.to_multiset().count(u[i]) > 0);
                assert(t.to_multiset().insert(x).count(u[i]) > 0);
                if u[i] != x {
                    assert(t.to_multiset().count(u[i]) > 0);
                    assert(t.contains(u[i]));
                    let k = choose|k: int| 0 <= k < t.len() && t[k] == u[i];
                    assert(s[k] == t[k]);
                    assert(!token_after(s[k], s[s.len() - 1]));
                }
            }
            let r = u.push(last);
            assert forall|i: int, j: int| 0 <= i < j < r.len() implies !token_after(#[trigger] r[i], #[trigger] r[j]) by {
                if j < u.len() {
                    assert(r[i] == u[i] && r[j] == u[j]);
                } else {
                    assert(r[i] == u[i]);
                }
            }
        } else {
            let r = s.push(x);
            assert forall|i: int, j: int| 0 <= i < j < r.len() implies !token_after(#[trigger] r[i], #[trigger] r[j]) by {
                if j < s.len() {
                    assert(r[i] == s[i] && r[j] == s[j]);
                } else {
                    assert(r[i] == s[i]);
                    if i < s.len() - 1 {
                        assert(!token_after(s[i], s[s.len() - 1]));
                    }
                }
            }
        }
    }
}

/// Sorted tokens are ordered by position.
pub proof fn lemma_sort_tokens_ordered(s: Seq<RawToken>)
    ensures
        tokens_ordered(sort_tokens(s)),
    decreases s.len(),
{
    if s.len() > 0 {
        lemma_sort_tokens_ordered(s.drop_last());
        lemma_insert_token_ordered(sort_tokens(s.drop_last()), s.last());
    }
}

/// The tokens of nonzero length, in order.
pub open spec fn nonempty_tokens(s: Seq<RawToken>) -> Seq<RawToken>
    decreases s.len(),
{
    if s.len() == 0 {
        s
    } else if s.last().length > 0 {
        nonempty_tokens(s.drop_last()).push(s.last())
    } else {
        nonempty_tokens(s.drop_last())
    }
}

/// Every kept token has a nonzero length, and keeping preserves order.
pub proof fn lemma_nonempty_tokens(s: Seq<RawToken>)
    ensures
        forall|i: int| 0 <= i < nonempty_tokens(s).len() ==> #[trigger] nonempty_tokens(s)[i].length > 0,
        tokens_ordered(s) ==> tokens_ordered(nonempty_tokens(s)),
        nonempty_tokens(s).to_multiset().subset_of(s.to_multiset()),
    decreases s.len(),
{
    broadcast use vstd::seq_lib::group_to_multiset_ensures;

    if s.len() > 0 {
        let t = s.drop_last();
        lemma_nonempty_tokens(t);
        assert(t.push(s.last()) == s);
        let n = nonempty_tokens(t);
        if s.last().length > 0 {
            let r = n.push(s.last());
            if tokens_ordered(s) {
                assert(tokens_ordered(t));
                assert forall|i: int, j: int| 0 <= i < j < r.len() implies !token_after(#[trigger] r[i], #[trigger] r[j]) by {
                    if j < n.len() {
                        assert(r[i] == n[i] && r[j] == n[j]);
                    } else {
                        assert(r[i] == n[i]);
                        assert(n.to_multiset().count(n[i]) > 0);
                        assert(t.to_multiset().count(n[i]) > 0);
                        assert(t.contains(n[i]));
                        let k = choose|k: int| 0 <= k < t.len() && t[k] == n[i];
                        assert(s[k] == t[k]);
                    }
                }
            }
        } else {
            if tokens_ordered(s) {
                assert(tokens_ordered(t));
            }
        }
    }
}

/// Keeps the tokens of nonzero length.
pub fn retain_nonempty(tokens: Vec<RawToken>) -> (r: Vec<RawToken>)
    ensures
        r@ == nonempty_tokens(tokens@),
{
    let mut out: Vec<RawToken> = Vec::new();
    let n = tokens.len();
    let mut i: usize = 0;
    while i < n
        invariant
            n == tokens@.len(),
            i <= n,
            out@ == nonempty_tokens(tokens@.take(i as int)),
        decreases n - i,
    {
        assert(tokens@.take(i + 1).drop_last() == tokens@.take(i as int));
        if tokens[i].length > 0 {
            out.push(tokens[i]);
        }
        i = i + 1;
    }
    assert(tokens@.take(n as int) == tokens@);
    out
}

/// Relative encoding: five numbers per token, the line as a difference to the
/// previous token's line and the column as a difference to the previous token's
/// column where both are on one line (both differences wrap around at 32 bits).
pub open spec fn encode_from(ts: Seq<RawToken>, prev_line: u32, prev_start: u32) -> Seq<u32>
    decreases ts.len(),
{
    if ts.len() == 0 {
        Seq::empty()
    } else {
        let t = ts[0];
        let delta_line = wrapping_sub(t.line, prev_line);
        let delta_start = if delta_line == 0 {
            wrapping_sub(t.start_char, prev_start)
        } else {
            t.start_char
        };
        seq![delta_line, delta_start, t.length, t.token_type, t.token_modifiers] + encode_from(
            ts.drop_first(),
            t.line,
            t.start_char,
        )
    }
}

/// Reads a relative encoding back into tokens.
pub open spec fn decode_from(data: Seq<u32>, prev_line: u32, prev_start: u32) -> Seq<RawToken>
    decreases data.len(),
{
    if data.len() < 5 {
        Seq::empty()
    } else {
        let line = wrapping_add(prev_line, data[0]);
        let start_char = if data[0] == 0 {
            wrapping_add(prev_start, data[1])
        } else {
            data[1]
        };
        seq![
            RawToken {
                line,
                start_char,
                length: data[2],
                token_type: data[3],
                token_modifiers: data[4],
            },
        ] + decode_from(data.subrange(5, data.len() as int), line, start_char)
    }
}

/// The relative encoding loses nothing: decoding it gives back the tokens, whatever
/// their order.
pub proof fn lemma_encode_decode(ts: Seq<RawToken>, prev_line: u32, prev_start: u32)
    ensures
        decode_from(encode_from(ts, prev_line, prev_start), prev_line, prev_start) == ts,
    decreases ts.len(),
{
    if ts.len() > 0 {
        let t = ts[0];
        let data = encode_from(ts, prev_line, prev_start);
        lemma_encode_decode(ts.drop_first(), t.line, t.start_char);
        assert(data.subrange(5, data.len() as int) == encode_from(
            ts.drop_first(),
            t.line,
            t.start_char,
        ));
        assert(wrapping_add(prev_line, wrapping_sub(t.line, prev_line)) == t.line);
        assert(wrapping_add(prev_start, wrapping_sub(t.start_char, prev_start)) == t.start_char);
        assert(seq![ts[0]] + ts.drop_first() == ts);
    }
}

/// The relative encoding of tokens.
pub fn encode(tokens: Vec<RawToken>) -> (r: Vec<u32>)
    ensures
        r@ == encode_from(tokens@, 0, 0),
{
    let mut out: Vec<u32> = Vec::new();
    let mut prev_line: u32 = 0;
    let mut prev_start: u32 = 0;
    let n = tokens.len();
    let mut i: usize = 0;
    while i < n
        invariant
            n == tokens@.len(),
            i <= n,
            out@ + encode_from(tokens@.skip(i as int), prev_line, prev_start) == encode_from(
                tokens@,
                0,
                0,
            ),
        decreases n - i,
    {
        let t = tokens[i];
        let delta_line = t.line.wrapping_sub(prev_line);
        let delta_start = if delta_line == 0 {
            t.start_char.wrapping_sub(prev_start)
        } else {
            t.start_char
        };
        proof {
            let rest = tokens@.skip(i as int);
            assert(rest[0] == t);
            assert(rest.drop_first() == tokens@.skip(i + 1));
        }
        let ghost before = out@;
        out.push(delta_line);
        out.push(delta_start);
        out.push(t.length);
        out.push(t.token_type);
        out.push(t.token_modifiers);
        assert(out@ == before + seq![
            delta_line,
            delta_start,
            t.length,
            t.token_type,
            t.token_modifiers,
        ]);
        prev_line = t.line;
        prev_start = t.start_char;
        i = i + 1;
    }
    assert(tokens@.skip(n as int) == Seq::<RawToken>::empty());
    assert(out@ + Seq::<u32>::empty() == out@);
    out
}

/// Records comment spans: documentation comments with the documentation modifier,
/// others without; empty spans are skipped.
pub fn collect_doc_comments(
    collector: &mut RawCollector<'_>,
    doc_comments: &Vec<Span>,
    comments: &Vec<Span>,
    source: &str,
)
    ensures
        final(collector).line_numbers == old(collector).line_numbers,
        final(collector).marks@ == old(collector).marks@ + spans_marks(
            doc_comments@,
            COMMENT,
            DOCUMENTATION_BIT,
        ) + spans_marks(comments@, COMMENT, 0),
{
    let ghost start = collector.marks@;
    let n = doc_comments.len();
    let mut i: usize = 0;
    while i < n
        invariant
            n == doc_comments@.len(),
            i <= n,
            collector.line_numbers == old(collector).line_numbers,
            collector.marks@ == start + spans_marks(
                doc_comments@.take(i as int),
                COMMENT,
                DOCUMENTATION_BIT,
            ),
        decreases n - i,
    {
        assert(doc_comments@.take(i + 1).drop_last() == doc_comments@.take(i as int));
        let span = doc_comments[i];
        if span.end > span.start {
            collector.push(span, COMMENT, DOCUMENTATION_BIT);
        }
        i = i + 1;
    }
    assert(doc_comments@.take(n as int) == doc_comments@);
    let ghost middle = collector.marks@;
    let m = comments.len();
    let mut j: usize = 0;
    while j < m
        invariant
            m == comments@.len(),
            j <= m,
            collector.line_numbers == old(collector).line_numbers,
            collector.marks@ == middle + spans_marks(comments@.take(j as int), COMMENT, 0),
        decreases m - j,
    {
        assert(comments@.take(j + 1).drop_last() == comments@.take(j as int));
        let span = comments[j];
        if span.end > span.start {
            collector.push(span, COMMENT, 0);
        }
        j = j + 1;
    }
    assert(comments@.take(m as int) == comments@);
    let _ = source;
}

/// All marks of a module: comments, definitions, then keywords.
pub open spec fn module_marks(m: CheckedModule) -> Seq<Mark> {
    spans_marks(m.doc_comments@, COMMENT, DOCUMENTATION_BIT) + spans_marks(m.comments@, COMMENT, 0)
        + definitions_marks(m.definitions@) + keyword_marks_from(encode_utf8(m.code@), 0)
}


/// Whether every mark's token type has a name in the legend and its modifier set
/// uses only the legend's three bits.
pub open spec fn marks_in_legend(ms: Seq<Mark>) -> bool {
    forall|i: int| 0 <= i < ms.len() ==> (#[trigger] ms[i]).token_type < 12 && ms[i].token_modifiers < 8
}

proof fn lemma_legend_concat(a: Seq<Mark>, b: Seq<Mark>)
    requires
        marks_in_legend(a),
        marks_in_legend(b),
    ensures
        marks_in_legend(a + b),
{
    assert forall|i: int| 0 <= i < (a + b).len() implies (#[trigger] (a + b)[i]).token_type < 12
        && (a + b)[i].token_modifiers < 8 by {
        if i < a.len() {
            assert((a + b)[i] == a[i]);
        } else {
            assert((a + b)[i] == b[i - a.len()]);
        }
    }
}

proof fn lemma_legend_annotation(a: Annotation)
    ensures
        marks_in_legend(annotation_marks(a)),
    decreases a,
{
    match a {
        Annotation::Constructor { location, arguments } => {
            lemma_legend_annotations(arguments@);
            lemma_legend_concat(emit(location, TYPE, 0), annotations_marks(arguments@));
        },
        Annotation::Fn { arguments, ret } => {
            lemma_legend_annotations(arguments@);
            lemma_legend_annotation(*ret);
            lemma_legend_concat(annotations_marks(arguments@), annotation_marks(*ret));
        },
        Annotation::Var { .. } => {},
        Annotation::Tuple { elems } => lemma_legend_annotations(elems@),
        Annotation::Pair { fst, snd } => {
            lemma_legend_annotation(*fst);
            lemma_legend_annotation(*snd);
            lemma_legend_concat(annotation_marks(*fst), annotation_marks(*snd));
        },
        Annotation::Hole => {},
    }
}

proof fn lemma_legend_annotations(s: Seq<Annotation>)
    ensures
        marks_in_legend(annotations_marks(s)),
    decreases s,
{
    if s.len() > 0 {
        lemma_legend_annotations(s.drop_last());
        lemma_legend_annotation(s.last());
        lemma_legend_concat(annotations_marks(s.drop_last()), annotation_marks(s.last()));
    }
}

proof fn lemma_legend_pattern(p: Pattern, extra: u32)
    requires
        extra < 8,
    ensures
        marks_in_legend(pattern_marks(p, extra)),
    decreases p,
{
    match p {
        Pattern::Assign { location, pattern } => {
            lemma_legend_pattern(*pattern, extra);
            lemma_legend_concat(emit(location, VARIABLE, extra), pattern_marks(*pattern, extra));
        },
        Pattern::List { elements, tail, .. } => {
            lemma_legend_patterns(elements@, extra);
            let t = match tail {
                Some(t) => pattern_marks(*t, extra),
                None => Seq::empty(),
            };
            match tail {
                Some(tp) => lemma_legend_pattern(*tp, extra),
                None => {},
            }
            lemma_legend_concat(patterns_marks(elements@, extra), t);
        },
        Pattern::Pair { fst, snd, .. } => {
            lemma_legend_pattern(*fst, extra);
            lemma_legend_pattern(*snd, extra);
            lemma_legend_concat(pattern_marks(*fst, extra), pattern_marks(*snd, extra));
        },
        Pattern::Tuple { elems, .. } => lemma_legend_patterns(elems@, extra),
        Pattern::Constructor { location, arguments } => {
            lemma_legend_patterns(arguments@, extra);
            lemma_legend_concat(emit(location, ENUM_MEMBER, 0), patterns_marks(arguments@, extra));
        },
        _ => {},
    }
}

proof fn lemma_legend_patterns(s: Seq<Pattern>, extra: u32)
    requires
        extra < 8,
    ensures
        marks_in_legend(patterns_marks(s, extra)),
    decreases s,
{
    if s.len() > 0 {
        lemma_legend_patterns(s.drop_last(), extra);
        lemma_legend_pattern(s.last(), extra);
        lemma_legend_concat(patterns_marks(s.drop_last(), extra), pattern_marks(s.last(), extra));
    }
}

proof fn lemma_legend_args(s: Seq<Arg>)
    ensures
        marks_in_legend(args_marks(s)),
    decreases s.len(),
{
    if s.len() > 0 {
        lemma_legend_args(s.drop_last());
        let a = s.last();
        let ann = match a.annotation {
            Some(x) => annotation_marks(x),
            None => Seq::empty(),
        };
        match a.annotation {
            Some(x) => lemma_legend_annotation(x),
            None => {},
        }
        lemma_legend_concat(emit(a.location, VARIABLE, DECLARATION_BIT), ann);
        lemma_legend_concat(args_marks(s.drop_last()), arg_marks(a));
    }
}

proof fn lemma_legend_expr(e: Expr)
    ensures
        marks_in_legend(expr_marks(e)),
    decreases e,
{
    match e {
        Expr::Sequence { expressions, .. } => lemma_legend_exprs(expressions@),
        Expr::Pipeline { expressions, .. } => lemma_legend_exprs(expressions@),
        Expr::Fn { args, body, .. } => {
            lemma_legend_args(args@);
            lemma_legend_expr(*body);
            lemma_legend_concat(args_marks(args@), expr_marks(*body));
        },
        Expr::List { elements, tail, .. } => {
            lemma_legend_exprs(elements@);
            let t = match tail {
                Some(t) => expr_marks(*t),
                None => Seq::empty(),
            };
            match tail {
                Some(x) => lemma_legend_expr(*x),
                None => {},
            }
            lemma_legend_concat(exprs_marks(elements@), t);
        },
        Expr::Call { fun, args, .. } => {
            lemma_legend_expr(*fun);
            lemma_legend_call_args(args@);
            lemma_legend_concat(expr_marks(*fun), call_args_marks(args@));
        },
        Expr::BinOp { location, left, right } => {
            lemma_legend_expr(*left);
            lemma_legend_expr(*right);
            lemma_legend_concat(emit(location, OPERATOR, 0), expr_marks(*left));
            lemma_legend_concat(emit(location, OPERATOR, 0) + expr_marks(*left), expr_marks(*right));
        },
        Expr::Assignment { value, pattern, .. } => {
            lemma_legend_pattern(pattern, DECLARATION_BIT);
            lemma_legend_expr(*value);
            lemma_legend_concat(pattern_marks(pattern, DECLARATION_BIT), expr_marks(*value));
        },
        Expr::Trace { next, text, .. } => {
            lemma_legend_expr(*next);
            lemma_legend_expr(*text);
            lemma_legend_concat(expr_marks(*next), expr_marks(*text));
        },
        Expr::When { subject, clauses, .. } => {
            lemma_legend_expr(*subject);
            lemma_legend_clauses(clauses@);
            lemma_legend_concat(expr_marks(*subject), clauses_marks(clauses@));
        },
        Expr::If { branches, final_else, .. } => {
            lemma_legend_branches(branches@);
            lemma_legend_expr(*final_else);
            lemma_legend_concat(branches_marks(branches@), expr_marks(*final_else));
        },
        Expr::RecordAccess { record, .. } => lemma_legend_expr(*record),
        Expr::Tuple { elems, .. } => lemma_legend_exprs(elems@),
        Expr::Pair { fst, snd, .. } => {
            lemma_legend_expr(*fst);
            lemma_legend_expr(*snd);
            lemma_legend_concat(expr_marks(*fst), expr_marks(*snd));
        },
        Expr::TupleIndex { tuple, .. } => lemma_legend_expr(*tuple),
        Expr::RecordUpdate { spread, args, .. } => {
            lemma_legend_expr(*spread);
            lemma_legend_call_args(args@);
            lemma_legend_concat(expr_marks(*spread), call_args_marks(args@));
        },
        Expr::UnOp { location, value } => {
            lemma_legend_expr(*value);
            lemma_legend_concat(emit(location, OPERATOR, 0), expr_marks(*value));
        },
        _ => {},
    }
}

proof fn lemma_legend_exprs(s: Seq<Expr>)
    ensures
        marks_in_legend(exprs_marks(s)),
    decreases s,
{
    if s.len() > 0 {
        lemma_legend_exprs(s.drop_last());
        lemma_legend_expr(s.last());
        lemma_legend_concat(exprs_marks(s.drop_last()), expr_marks(s.last()));
    }
}

proof fn lemma_legend_call_args(s: Seq<CallArg>)
    ensures
        marks_in_legend(call_args_marks(s)),
    decreases s,
{
    if s.len() > 0 {
        lemma_legend_call_args(s.drop_last());
        lemma_legend_expr(s.last().value);
        lemma_legend_concat(call_args_marks(s.drop_last()), expr_marks(s.last().value));
    }
}

proof fn lemma_legend_clauses(s: Seq<Clause>)
    ensures
        marks_in_legend(clauses_marks(s)),
    decreases s,
{
    if s.len() > 0 {
        lemma_legend_clauses(s.drop_last());
        lemma_legend_pattern(s.last().pattern, 0);
        lemma_legend_expr(s.last().body);
        lemma_legend_concat(clauses_marks(s.drop_last()), pattern_marks(s.last().pattern, 0));
        lemma_legend_concat(
            clauses_marks(s.drop_last()) + pattern_marks(s.last().pattern, 0),
            expr_marks(s.last().body),
        );
    }
}

proof fn lemma_legend_branches(s: Seq<IfBranch>)
    ensures
        marks_in_legend(branches_marks(s)),
    decreases s,
{
    if s.len() > 0 {
        let b = s.last();
        lemma_legend_branches(s.drop_last());
        let p = match b.is_pattern {
            Some(x) => pattern_marks(x, DECLARATION_BIT),
            None => Seq::empty(),
        };
        match b.is_pattern {
            Some(x) => lemma_legend_pattern(x, DECLARATION_BIT),
            None => {},
        }
        lemma_legend_expr(b.condition);
        lemma_legend_expr(b.body);
        lemma_legend_concat(branches_marks(s.drop_last()), p);
        lemma_legend_concat(branches_marks(s.drop_last()) + p, expr_marks(b.condition));
        lemma_legend_concat(branches_marks(s.drop_last()) + p + expr_marks(b.condition), expr_marks(b.body));
    }
}

proof fn lemma_legend_function(f: Function)
    ensures
        marks_in_legend(function_marks(f)),
{
    lemma_legend_args(f.arguments@);
    lemma_legend_expr(f.body);
    lemma_legend_concat(emit(f.location, FUNCTION, DECLARATION_BIT), args_marks(f.arguments@));
    lemma_legend_concat(
        emit(f.location, FUNCTION, DECLARATION_BIT) + args_marks(f.arguments@),
        expr_marks(f.body),
    );
}

proof fn lemma_legend_functions(s: Seq<Function>)
    ensures
        marks_in_legend(functions_marks(s)),
    decreases s.len(),
{
    if s.len() > 0 {
        lemma_legend_functions(s.drop_last());
        lemma_legend_function(s.last());
        lemma_legend_concat(functions_marks(s.drop_last()), function_marks(s.last()));
    }
}

proof fn lemma_legend_constructors(s: Seq<RecordConstructor>)
    ensures
        marks_in_legend(constructors_marks(s)),
    decreases s.len(),
{
    if s.len() > 0 {
        let c = s.last();
        lemma_legend_constructors(s.drop_last());
        lemma_legend_annotations(c.field_annotations@);
        lemma_legend_concat(constructors_marks(s.drop_last()), emit(c.location, CONSTRUCTOR, DECLARATION_BIT));
        lemma_legend_concat(
            constructors_marks(s.drop_last()) + emit(c.location, CONSTRUCTOR, DECLARATION_BIT),
            annotations_marks(c.field_annotations@),
        );
    }
}

proof fn lemma_legend_spans(s: Seq<Span>, t: u32, m: u32)
    requires
        t < 12,
        m < 8,
    ensures
        marks_in_legend(spans_marks(s, t, m)),
    decreases s.len(),
{
    if s.len() > 0 {
        lemma_legend_spans(s.drop_last(), t, m);
        lemma_legend_concat(spans_marks(s.drop_last(), t, m), emit(s.last(), t, m));
    }
}

proof fn lemma_legend_definition(d: Definition)
    ensures
        marks_in_legend(definition_marks(d)),
{
    match d {
        Definition::Fn(f) => lemma_legend_function(f),
        Definition::Test(f) => lemma_legend_function(f),
        Definition::Benchmark(f) => lemma_legend_function(f),
        Definition::TypeAlias { location, annotation, .. } => {
            lemma_legend_annotation(annotation);
            lemma_legend_concat(emit(location, CLASS, DECLARATION_BIT), annotation_marks(annotation));
        },
        Definition::DataType { location, constructors, .. } => {
            lemma_legend_constructors(constructors@);
            lemma_legend_concat(emit(location, CLASS, DECLARATION_BIT), constructors_marks(constructors@));
        },
        Definition::ModuleConstant { location, annotation, value, .. } => {
            let a = match annotation {
                Some(x) => annotation_marks(x),
                None => Seq::empty(),
            };
            match annotation {
                Some(x) => lemma_legend_annotation(x),
                None => {},
            }
            lemma_legend_expr(value);
            lemma_legend_concat(emit(location, VARIABLE, READONLY_BIT), a);
            lemma_legend_concat(emit(location, VARIABLE, READONLY_BIT) + a, expr_marks(value));
        },
        Definition::Validator(v) => {
            let h = emit(v.location, CLASS, DECLARATION_BIT);
            lemma_legend_args(v.params@);
            lemma_legend_functions(v.handlers@);
            lemma_legend_args(v.fallback.arguments@);
            lemma_legend_expr(v.fallback.body);
            lemma_legend_concat(h, args_marks(v.params@));
            lemma_legend_concat(h + args_marks(v.params@), functions_marks(v.handlers@));
            lemma_legend_concat(
                h + args_marks(v.params@) + functions_marks(v.handlers@),
                args_marks(v.fallback.arguments@),
            );
            lemma_legend_concat(
                h + args_marks(v.params@) + functions_marks(v.handlers@) + args_marks(
                    v.fallback.arguments@,
                ),
                expr_marks(v.fallback.body),
            );
        },
        Definition::Use { location, unqualified, .. } => {
            lemma_legend_spans(unqualified@, FUNCTION, 0);
            lemma_legend_concat(emit(location, NAMESPACE, 0), spans_marks(unqualified@, FUNCTION, 0));
        },
    }
}

proof fn lemma_legend_definitions(s: Seq<Definition>)
    ensures
        marks_in_legend(definitions_marks(s)),
    decreases s.len(),
{
    if s.len() > 0 {
        lemma_legend_definitions(s.drop_last());
        lemma_legend_definition(s.last());
        lemma_legend_concat(definitions_marks(s.drop_last()), definition_marks(s.last()));
    }
}

proof fn lemma_legend_keywords(bytes: Seq<u8>, i: int)
    ensures
        marks_in_legend(keyword_marks_from(bytes, i)),
    decreases bytes.len() - i,
{
    if 0 <= i < bytes.len() {
        if !ident_start_byte(bytes[i]) {
            lemma_legend_keywords(bytes, i + 1);
        } else {
            let e = word_end(bytes, i + 1);
            lemma_word_end(bytes, i + 1);
            lemma_legend_keywords(bytes, e);
            let k = if is_keyword(bytes.subrange(i, e)) {
                emit(Span { start: i as usize, end: e as usize }, KEYWORD, 0)
            } else {
                Seq::empty()
            };
            lemma_legend_concat(k, keyword_marks_from(bytes, e));
        }
    }
}

/// Every mark of a module has a token type the legend names and a modifier set made
/// of the legend's bits.
pub proof fn lemma_module_marks_in_legend(m: CheckedModule)
    ensures
        marks_in_legend(module_marks(m)),
{
    let a = spans_marks(m.doc_comments@, COMMENT, DOCUMENTATION_BIT);
    let b = spans_marks(m.comments@, COMMENT, 0);
    let c = definitions_marks(m.definitions@);
    let d = keyword_marks_from(encode_utf8(m.code@), 0);
    lemma_legend_spans(m.doc_comments@, COMMENT, DOCUMENTATION_BIT);
    lemma_legend_spans(m.comments@, COMMENT, 0);
    lemma_legend_definitions(m.definitions@);
    lemma_legend_keywords(encode_utf8(m.code@), 0);
    lemma_legend_concat(a, b);
    lemma_legend_concat(a + b, c);
    lemma_legend_concat(a + b + c, d);
}

/// Whether an expression holds, itself or anywhere inside, a literal at `loc` of
/// token type `t`: a string, byte array or curve point literal is a string, an
/// integer literal a number.
pub open spec fn holds_literal_at(e: Expr, loc: Span, t: u32) -> bool
    decreases e,
{
    match e {
        Expr::String { location } => location == loc && t == STRING,
        Expr::ByteArray { location } => location == loc && t == STRING,
        Expr::CurvePoint { location } => location == loc && t == STRING,
        Expr::UInt { location } => location == loc && t == NUMBER,
        Expr::Sequence { expressions, .. } => exprs_hold_literal_at(expressions@, loc, t),
        Expr::Pipeline { expressions, .. } => exprs_hold_literal_at(expressions@, loc, t),
        Expr::Fn { body, .. } => holds_literal_at(*body, loc, t),
        Expr::List { elements, tail, .. } => exprs_hold_literal_at(elements@, loc, t) || match tail {
            Some(tl) => holds_literal_at(*tl, loc, t),
            None => false,
        },
        Expr::Call { fun, args, .. } => holds_literal_at(*fun, loc, t) || call_args_hold_literal_at(
            args@,
            loc,
            t,
        ),
        Expr::BinOp { left, right, .. } => holds_literal_at(*left, loc, t) || holds_literal_at(
            *right,
            loc,
            t,
        ),
        Expr::Assignment { value, .. } => holds_literal_at(*value, loc, t),
        Expr::Trace { next, text, .. } => holds_literal_at(*next, loc, t) || holds_literal_at(*text, loc, t),
        Expr::When { subject, clauses, .. } => holds_literal_at(*subject, loc, t)
            || clauses_hold_literal_at(clauses@, loc, t),
        Expr::If { branches, final_else, .. } => branches_hold_literal_at(branches@, loc, t)
            || holds_literal_at(*final_else, loc, t),
        Expr::RecordAccess { record, .. } => holds_literal_at(*record, loc, t),
        Expr::Tuple { elems, .. } => exprs_hold_literal_at(elems@, loc, t),
        Expr::Pair { fst, snd, .. } => holds_literal_at(*fst, loc, t) || holds_literal_at(*snd, loc, t),
        Expr::TupleIndex { tuple, .. } => holds_literal_at(*tuple, loc, t),
        Expr::RecordUpdate { spread, args, .. } => holds_literal_at(*spread, loc, t)
            || call_args_hold_literal_at(args@, loc, t),
        Expr::UnOp { value, .. } => holds_literal_at(*value, loc, t),
        _ => false,
    }
}

pub open spec fn exprs_hold_literal_at(s: Seq<Expr>, loc: Span, t: u32) -> bool
    decreases s,
{
    s.len() > 0 && (exprs_hold_literal_at(s.drop_last(), loc, t) || holds_literal_at(s.last(), loc, t))
}

pub open spec fn call_args_hold_literal_at(s: Seq<CallArg>, loc: Span, t: u32) -> bool
    decreases s,
{
    s.len() > 0 && (call_args_hold_literal_at(s.drop_last(), loc, t) || holds_literal_at(s.last().value, loc, t))
}

pub open spec fn clauses_hold_literal_at(s: Seq<Clause>, loc: Span, t: u32) -> bool
    decreases s,
{
    s.len() > 0 && (clauses_hold_literal_at(s.drop_last(), loc, t) || holds_literal_at(s.last().body, loc, t))
}

pub open spec fn branches_hold_literal_at(s: Seq<IfBranch>, loc: Span, t: u32) -> bool
    decreases s,
{
    s.len() > 0 && (branches_hold_literal_at(s.drop_last(), loc, t) || holds_literal_at(s.last().condition, loc, t)
        || holds_literal_at(s.last().body, loc, t))
}

/// Whether a definition holds a literal at `loc` of token type `t`: in the body of a function,
/// test or benchmark, in a constant's value, or in a validator handler's or its
/// fallback's body.
pub open spec fn definition_holds_literal_at(d: Definition, loc: Span, t: u32) -> bool {
    match d {
        Definition::Fn(f) => holds_literal_at(f.body, loc, t),
        Definition::Test(f) => holds_literal_at(f.body, loc, t),
        Definition::Benchmark(f) => holds_literal_at(f.body, loc, t),
        Definition::ModuleConstant { value, .. } => holds_literal_at(value, loc, t),
        Definition::Validator(v) => (exists|k: int|
            0 <= k < v.handlers@.len() && holds_literal_at((#[trigger] v.handlers@[k]).body, loc, t))
            || holds_literal_at(v.fallback.body, loc, t),
        _ => false,
    }
}

proof fn lemma_marks_concat(a: Seq<Mark>, b: Seq<Mark>, x: Mark)
    requires
        a.contains(x) || b.contains(x),
    ensures
        (a + b).contains(x),
{
    if a.contains(x) {
        let k = choose|k: int| 0 <= k < a.len() && a[k] == x;
        assert((a + b)[k] == x);
    } else {
        let k = choose|k: int| 0 <= k < b.len() && b[k] == x;
        assert((a + b)[a.len() + k] == x);
    }
}

pub open spec fn literal_mark(loc: Span, t: u32) -> Mark {
    Mark { span: loc, token_type: t, token_modifiers: 0 }
}

proof fn lemma_literal_marked(e: Expr, loc: Span, t: u32)
    requires
        holds_literal_at(e, loc, t),
        span_len(loc) != 0,
    ensures
        expr_marks(e).contains(literal_mark(loc, t)),
    decreases e,
{
    let x = literal_mark(loc, t);
    match e {
        Expr::String { .. } => {
            assert(expr_marks(e)[0] == x);
        },
        Expr::ByteArray { .. } => {
            assert(expr_marks(e)[0] == x);
        },
        Expr::CurvePoint { .. } => {
            assert(expr_marks(e)[0] == x);
        },
        Expr::UInt { .. } => {
            assert(expr_marks(e)[0] == x);
        },
        Expr::Sequence { expressions, .. } => lemma_exprs_literal_marked(expressions@, loc, t),
        Expr::Pipeline { expressions, .. } => lemma_exprs_literal_marked(expressions@, loc, t),
        Expr::Fn { args, body, .. } => {
            lemma_literal_marked(*body, loc, t);
            lemma_marks_concat(args_marks(args@), expr_marks(*body), x);
        },
        Expr::List { elements, tail, .. } => {
            let tl = match tail {
                Some(q) => expr_marks(*q),
                None => Seq::empty(),
            };
            if exprs_hold_literal_at(elements@, loc, t) {
                lemma_exprs_literal_marked(elements@, loc, t);
            } else {
                match tail {
                    Some(tt) => lemma_literal_marked(*tt, loc, t),
                    None => {},
                }
            }
            lemma_marks_concat(exprs_marks(elements@), tl, x);
        },
        Expr::Call { fun, args, .. } => {
            if holds_literal_at(*fun, loc, t) {
                lemma_literal_marked(*fun, loc, t);
            } else {
                lemma_call_args_literal_marked(args@, loc, t);
            }
            lemma_marks_concat(expr_marks(*fun), call_args_marks(args@), x);
        },
        Expr::BinOp { location, left, right } => {
            let o = emit(location, OPERATOR, 0);
            if holds_literal_at(*left, loc, t) {
                lemma_literal_marked(*left, loc, t);
                lemma_marks_concat(o, expr_marks(*left), x);
            } else {
                lemma_literal_marked(*right, loc, t);
            }
            lemma_marks_concat(o + expr_marks(*left), expr_marks(*right), x);
        },
        Expr::Assignment { value, pattern, .. } => {
            lemma_literal_marked(*value, loc, t);
            lemma_marks_concat(pattern_marks(pattern, DECLARATION_BIT), expr_marks(*value), x);
        },
        Expr::Trace { next, text, .. } => {
            if holds_literal_at(*next, loc, t) {
                lemma_literal_marked(*next, loc, t);
            } else {
                lemma_literal_marked(*text, loc, t);
            }
            lemma_marks_concat(expr_marks(*next), expr_marks(*text), x);
        },
        Expr::When { subject, clauses, .. } => {
            if holds_literal_at(*subject, loc, t) {
                lemma_literal_marked(*subject, loc, t);
            } else {
                lemma_clauses_literal_marked(clauses@, loc, t);
            }
            lemma_marks_concat(expr_marks(*subject), clauses_marks(clauses@), x);
        },
        Expr::If { branches, final_else, .. } => {
            if branches_hold_literal_at(branches@, loc, t) {
                lemma_branches_literal_marked(branches@, loc, t);
            } else {
                lemma_literal_marked(*final_else, loc, t);
            }
            lemma_marks_concat(branches_marks(branches@), expr_marks(*final_else), x);
        },
        Expr::RecordAccess { record, .. } => lemma_literal_marked(*record, loc, t),
        Expr::Tuple { elems, .. } => lemma_exprs_literal_marked(elems@, loc, t),
        Expr::Pair { fst, snd, .. } => {
            if holds_literal_at(*fst, loc, t) {
                lemma_literal_marked(*fst, loc, t);
            } else {
                lemma_literal_marked(*snd, loc, t);
            }
            lemma_marks_concat(expr_marks(*fst), expr_marks(*snd), x);
        },
        Expr::TupleIndex { tuple, .. } => lemma_literal_marked(*tuple, loc, t),
        Expr::RecordUpdate { spread, args, .. } => {
            if holds_literal_at(*spread, loc, t) {
                lemma_literal_marked(*spread, loc, t);
            } else {
                lemma_call_args_literal_marked(args@, loc, t);
            }
            lemma_marks_concat(expr_marks(*spread), call_args_marks(args@), x);
        },
        Expr::UnOp { location, value } => {
            lemma_literal_marked(*value, loc, t);
            lemma_marks_concat(emit(location, OPERATOR, 0), expr_marks(*value), x);
        },
        _ => {},
    }
}

proof fn lemma_exprs_literal_marked(s: Seq<Expr>, loc: Span, t: u32)
    requires
        exprs_hold_literal_at(s, loc, t),
        span_len(loc) != 0,
    ensures
        exprs_marks(s).contains(literal_mark(loc, t)),
    decreases s,
{
    if exprs_hold_literal_at(s.drop_last(), loc, t) {
        lemma_exprs_literal_marked(s.drop_last(), loc, t);
    } else {
        lemma_literal_marked(s.last(), loc, t);
    }
    lemma_marks_concat(exprs_marks(s.drop_last()), expr_marks(s.last()), literal_mark(loc, t));
}

proof fn lemma_call_args_literal_marked(s: Seq<CallArg>, loc: Span, t: u32)
    requires
        call_args_hold_literal_at(s, loc, t),
        span_len(loc) != 0,
    ensures
        call_args_marks(s).contains(literal_mark(loc, t)),
    decreases s,
{
    if call_args_hold_literal_at(s.drop_last(), loc, t) {
        lemma_call_args_literal_marked(s.drop_last(), loc, t);
    } else {
        lemma_literal_marked(s.last().value, loc, t);
    }
    lemma_marks_concat(call_args_marks(s.drop_last()), expr_marks(s.last().value), literal_mark(loc, t));
}

proof fn lemma_clauses_literal_marked(s: Seq<Clause>, loc: Span, t: u32)
    requires
        clauses_hold_literal_at(s, loc, t),
        span_len(loc) != 0,
    ensures
        clauses_marks(s).contains(literal_mark(loc, t)),
    decreases s,
{
    let x = literal_mark(loc, t);
    let p = pattern_marks(s.last().pattern, 0);
    if clauses_hold_literal_at(s.drop_last(), loc, t) {
        lemma_clauses_literal_marked(s.drop_last(), loc, t);
        lemma_marks_concat(clauses_marks(s.drop_last()), p, x);
    } else {
        lemma_literal_marked(s.last().body, loc, t);
    }
    lemma_marks_concat(clauses_marks(s.drop_last()) + p, expr_marks(s.last().body), x);
}

proof fn lemma_branches_literal_marked(s: Seq<IfBranch>, loc: Span, t: u32)
    requires
        branches_hold_literal_at(s, loc, t),
        span_len(loc) != 0,
    ensures
        branches_marks(s).contains(literal_mark(loc, t)),
    decreases s,
{
    let x = literal_mark(loc, t);
    let b = s.last();
    let p = match b.is_pattern {
        Some(q) => pattern_marks(q, DECLARATION_BIT),
        None => Seq::empty(),
    };
    let head = branches_marks(s.drop_last());
    if branches_hold_literal_at(s.drop_last(), loc, t) {
        lemma_branches_literal_marked(s.drop_last(), loc, t);
        lemma_marks_concat(head, p, x);
        lemma_marks_concat(head + p, expr_marks(b.condition), x);
    } else if holds_literal_at(b.condition, loc, t) {
        lemma_literal_marked(b.condition, loc, t);
        lemma_marks_concat(head + p, expr_marks(b.condition), x);
    } else {
        lemma_literal_marked(b.body, loc, t);
    }
    lemma_marks_concat(head + p + expr_marks(b.condition), expr_marks(b.body), x);
}

proof fn lemma_functions_marks_contain(s: Seq<Function>, k: int, x: Mark)
    requires
        0 <= k < s.len(),
        function_marks(s[k]).contains(x),
    ensures
        functions_marks(s).contains(x),
    decreases s.len(),
{
    let t = s.drop_last();
    if k < s.len() - 1 {
        assert(t[k] == s[k]);
        lemma_functions_marks_contain(t, k, x);
    }
    lemma_marks_concat(functions_marks(t), function_marks(s.last()), x);
}

proof fn lemma_function_literal_marked(f: Function, loc: Span, t: u32)
    requires
        holds_literal_at(f.body, loc, t),
        span_len(loc) != 0,
    ensures
        function_marks(f).contains(literal_mark(loc, t)),
{
    lemma_literal_marked(f.body, loc, t);
    lemma_marks_concat(
        emit(f.location, FUNCTION, DECLARATION_BIT) + args_marks(f.arguments@),
        expr_marks(f.body),
        literal_mark(loc, t),
    );
}

proof fn lemma_definition_literal_marked(d: Definition, loc: Span, t: u32)
    requires
        definition_holds_literal_at(d, loc, t),
        span_len(loc) != 0,
    ensures
        definition_marks(d).contains(literal_mark(loc, t)),
{
    let x = literal_mark(loc, t);
    match d {
        Definition::Fn(f) => lemma_function_literal_marked(f, loc, t),
        Definition::Test(f) => lemma_function_literal_marked(f, loc, t),
        Definition::Benchmark(f) => lemma_function_literal_marked(f, loc, t),
        Definition::ModuleConstant { location, annotation, value, .. } => {
            let a = match annotation {
                Some(q) => annotation_marks(q),
                None => Seq::empty(),
            };
            lemma_literal_marked(value, loc, t);
            lemma_marks_concat(emit(location, VARIABLE, READONLY_BIT) + a, expr_marks(value), x);
        },
        Definition::Validator(v) => {
            let h = emit(v.location, CLASS, DECLARATION_BIT);
            let p = h + args_marks(v.params@);
            let hs = functions_marks(v.handlers@);
            let fa = args_marks(v.fallback.arguments@);
            if exists|k: int| 0 <= k < v.handlers@.len() && holds_literal_at((#[trigger] v.handlers@[k]).body, loc, t) {
                let k = choose|k: int| 0 <= k < v.handlers@.len() && holds_literal_at((#[trigger] v.handlers@[k]).body, loc, t);
                lemma_function_literal_marked(v.handlers@[k], loc, t);
                lemma_functions_marks_contain(v.handlers@, k, x);
                lemma_marks_concat(p, hs, x);
                lemma_marks_concat(p + hs, fa, x);
            } else {
                lemma_literal_marked(v.fallback.body, loc, t);
            }
            lemma_marks_concat(p + hs + fa, expr_marks(v.fallback.body), x);
        },
        _ => {},
    }
}

proof fn lemma_definitions_marks_contain(s: Seq<Definition>, i: int, x: Mark)
    requires
        0 <= i < s.len(),
        definition_marks(s[i]).contains(x),
    ensures
        definitions_marks(s).contains(x),
    decreases s.len(),
{
    let t = s.drop_last();
    if i < s.len() - 1 {
        assert(t[i] == s[i]);
        lemma_definitions_marks_contain(t, i, x);
    }
    lemma_marks_concat(definitions_marks(t), definition_marks(s.last()), x);
}

/// The tokens of a module in the order they are sent, before relative encoding.
pub open spec fn module_token_stream(m: CheckedModule) -> Seq<RawToken> {
    nonempty_tokens(sort_tokens(tokens_of(encode_utf8(m.code@), module_marks(m))))
}

proof fn lemma_nonempty_keeps(s: Seq<RawToken>, x: RawToken)
    requires
        s.contains(x),
        x.length > 0,
    ensures
        nonempty_tokens(s).contains(x),
    decreases s.len(),
{
    let t = s.drop_last();
    if x == s.last() {
        assert(nonempty_tokens(s) == nonempty_tokens(t).push(x));
        assert(nonempty_tokens(s)[nonempty_tokens(t).len() as int] == x);
    } else {
        let k = choose|k: int| 0 <= k < s.len() && s[k] == x;
        assert(k < t.len() && t[k] == x);
        lemma_nonempty_keeps(t, x);
        let j = choose|j: int| 0 <= j < nonempty_tokens(t).len() && nonempty_tokens(t)[j] == x;
        if s.last().length > 0 {
            assert(nonempty_tokens(s)[j] == x);
        }
    }
}

/// Every mark of a module with a nonzero length reaches the stream that is sent:
/// decoding the stream gives back the mark's token.
pub proof fn lemma_mark_reaches_stream(m: CheckedModule, x: Mark)
    requires
        module_marks(m).contains(x),
        span_len(x.span) != 0,
    ensures
        decode_from(encode_from(module_token_stream(m), 0, 0), 0, 0).contains(
            token_of(encode_utf8(m.code@), x),
        ),
{
    broadcast use vstd::seq_lib::group_to_multiset_ensures;

    let bytes = encode_utf8(m.code@);
    let marks = module_marks(m);
    let all = tokens_of(bytes, marks);
    let t = token_of(bytes, x);
    let k = choose|k: int| 0 <= k < marks.len() && marks[k] == x;
    assert(all[k] == t);
    assert(all.contains(t));
    lemma_sort_tokens_permutes(all);
    assert(sort_tokens(all).to_multiset().count(t) > 0);
    assert(sort_tokens(all).contains(t));
    lemma_nonempty_keeps(sort_tokens(all), t);
    lemma_encode_decode(module_token_stream(m), 0, 0);
}

/// Every literal of a module (whose token length is not 0) is sent, without
/// modifiers, at the literal's position and of its length: a string, byte array or
/// curve point literal as a string token, an integer literal as a number token.
pub proof fn lemma_literals_are_sent(m: CheckedModule, i: int, loc: Span, t: u32)
    requires
        0 <= i < m.definitions@.len(),
        definition_holds_literal_at(m.definitions@[i], loc, t),
        span_len(loc) != 0,
    ensures
        decode_from(encode_from(module_token_stream(m), 0, 0), 0, 0).contains(
            RawToken {
                line: position_of(encode_utf8(m.code@), loc.start).line,
                start_char: position_of(encode_utf8(m.code@), loc.start).character,
                length: span_len(loc),
                token_type: t,
                token_modifiers: 0,
            },
        ),
{
    let x = literal_mark(loc, t);
    lemma_definition_literal_marked(m.definitions@[i], loc, t);
    lemma_definitions_marks_contain(m.definitions@, i, x);
    let a = spans_marks(m.doc_comments@, COMMENT, DOCUMENTATION_BIT);
    let b = spans_marks(m.comments@, COMMENT, 0);
    let c = definitions_marks(m.definitions@);
    let d = keyword_marks_from(encode_utf8(m.code@), 0);
    lemma_marks_concat(a + b, c, x);
    lemma_marks_concat(a + b + c, d, x);
    lemma_mark_reaches_stream(m, x);
}

/// What the stream of a module's semantic tokens holds: decoding it gives tokens of
/// nonzero length, ordered by position, each one of the module's marked tokens, each
/// with a token type and modifier set the legend names.
pub proof fn lemma_semantic_tokens_stream(module: CheckedModule)
    ensures
        ({
            let all = tokens_of(encode_utf8(module.code@), module_marks(module));
            let ts = nonempty_tokens(sort_tokens(all));
            &&& decode_from(encode_from(ts, 0, 0), 0, 0) == ts
            &&& tokens_ordered(ts)
            &&& forall|i: int| 0 <= i < ts.len() ==> #[trigger] ts[i].length > 0
            &&& ts.to_multiset().subset_of(all.to_multiset())
            &&& forall|i: int|
                0 <= i < ts.len() ==> (#[trigger] ts[i]).token_type < 12 && ts[i].token_modifiers < 8
        }),
{
    broadcast use vstd::seq_lib::group_to_multiset_ensures;

    let bytes = encode_utf8(module.code@);
    let all = tokens_of(bytes, module_marks(module));
    let ts = nonempty_tokens(sort_tokens(all));
    lemma_encode_decode(ts, 0, 0);
    lemma_sort_tokens_ordered(all);
    lemma_sort_tokens_permutes(all);
    lemma_nonempty_tokens(sort_tokens(all));
    lemma_module_marks_in_legend(module);
    assert forall|i: int| 0 <= i < ts.len() implies (#[trigger] ts[i]).token_type < 12
        && ts[i].token_modifiers < 8 by {
        let x = ts[i];
        assert(ts.contains(x));
        assert(ts.to_multiset().count(x) > 0);
        assert(all.to_multiset().count(x) > 0);
        assert(all.contains(x));
        let j = choose|j: int| 0 <= j < all.len() && all[j] == x;
        assert(all[j] == token_of(bytes, module_marks(module)[j]));
    }
}

/// Records every mark of a module: comments, definitions, then keywords.
fn module_collector<'a>(module: &CheckedModule, line_numbers: &'a LineNumbers) -> (r: RawCollector<'a>)
    ensures
        r.line_numbers == line_numbers,
        r.marks@ == module_marks(*module),
{
    let code = module.code.as_str();
    let mut collector = RawCollector::new(line_numbers);
    collect_doc_comments(&mut collector, &module.doc_comments, &module.comments, code);
    let n = module.definitions.len();
    let ghost start = collector.marks@;
    let mut i: usize = 0;
    while i < n
        invariant
            n == module.definitions@.len(),
            i <= n,
            collector.line_numbers == line_numbers,
            collector.marks@ == start + definitions_marks(module.definitions@.take(i as int)),
        decreases n - i,
    {
        assert(module.definitions@.take(i + 1).drop_last() == module.definitions@.take(i as int));
        collector.collect_definition(&module.definitions[i]);
        i = i + 1;
    }
    assert(module.definitions@.take(n as int) == module.definitions@);
    collect_keywords(&mut collector, code, line_numbers);
    collector
}

/// Whether every token of a module starts at a byte the line table can place, which
/// `semantic_tokens_full` needs.
pub fn semantic_tokens_resolvable(module: &CheckedModule) -> (r: bool)
    ensures
        r == marks_resolvable(encode_utf8(module.code@), module_marks(*module)),
{
    let line_numbers = LineNumbers::new(module.code.as_str());
    let collector = module_collector(module, &line_numbers);
    let ghost bytes = encode_utf8(module.code@);
    let ghost marks = collector.marks@;
    let n = collector.marks.len();
    let mut i: usize = 0;
    while i < n
        invariant
            n == marks.len(),
            i <= n,
            marks == collector.marks@,
            marks == module_marks(*module),
            bytes == encode_utf8(module.code@),
            line_numbers.wf(),
            line_numbers.text() == bytes,
            forall|k: int| 0 <= k < i ==> resolvable(bytes, #[trigger] marks[k].span.start),
        decreases n - i,
    {
        if !is_resolvable(&line_numbers, collector.marks[i].span.start) {
            assert(!resolvable(bytes, marks[i as int].span.start));
            return false;
        }
        i = i + 1;
    }
    true
}

/// The semantic tokens of a module, relatively encoded: every comment, definition
/// part and keyword, ordered by position, tokens at one position in the order they
/// were collected.
pub fn semantic_tokens_full(module: &CheckedModule) -> (r: Vec<u32>)
    requires
        marks_resolvable(encode_utf8(module.code@), module_marks(*module)),
    ensures
        r@ == encode_from(
            nonempty_tokens(sort_tokens(tokens_of(encode_utf8(module.code@), module_marks(*module)))),
            0,
            0,
        ),
{
    let line_numbers = LineNumbers::new(module.code.as_str());
    let collector = module_collector(module, &line_numbers);
    let tokens = collector.tokens();
    let sorted = sort_by_position(tokens);
    let kept = retain_nonempty(sorted);
    encode(kept)
}

} // verus!
