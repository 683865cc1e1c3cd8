//! The parts of a type-checked Aiken module that the language features read, as
//! plain values. Types are carried as their printed form.
use vstd::prelude::*;
use vstd::string::StringSliceAdditionalSpecFns;
use crate::span::Span;

verus! {

/// A labelled argument of a function or record: its label and 0-based position.
#[derive(Debug, PartialEq, Eq)]
pub struct Field {
    pub label: String,
    pub index: usize,
}

/// The labelled arguments of a function or record constructor.
#[derive(Debug, PartialEq, Eq)]
pub struct FieldMap {
    pub fields: Vec<Field>,
}

/// What a name in scope stands for.
#[derive(Debug, PartialEq, Eq)]
pub enum ValueConstructorVariant {
    LocalVariable,
    ModuleConstant { name: String },
    ModuleFn { name: String, arity: usize, field_map: Option<FieldMap> },
    Record { name: String, arity: usize, field_map: Option<FieldMap>, constructors_count: u16 },
}

/// A value in scope with its printed type and, where that type is a function type,
/// its printed return type.
#[derive(Debug, PartialEq, Eq)]
pub struct ValueConstructor {
    pub variant: ValueConstructorVariant,
    pub type_text: String,
    pub fn_return_text: Option<String>,
}

/// What a qualified name `module.name` stands for; a function carries its arity and
/// labelled arguments as its module defines them, and the type of the qualified name
/// itself.
#[derive(Debug, PartialEq, Eq)]
pub enum ModuleValueConstructor {
    Record {
        name: String,
        arity: usize,
        field_map: Option<FieldMap>,
        type_text: String,
        fn_return_text: Option<String>,
    },
    Fn {
        name: String,
        arity: usize,
        field_map: Option<FieldMap>,
        type_text: String,
        fn_return_text: Option<String>,
    },
    Constant,
}

/// A type annotation written in the source.
#[derive(Debug, PartialEq, Eq)]
pub enum Annotation {
    Constructor { location: Span, arguments: Vec<Annotation> },
    Fn { arguments: Vec<Annotation>, ret: Box<Annotation> },
    Var { location: Span },
    Tuple { elems: Vec<Annotation> },
    Pair { fst: Box<Annotation>, snd: Box<Annotation> },
    Hole,
}

/// A pattern of an assignment, a `when` clause or an `if ... is`.
#[derive(Debug, PartialEq, Eq)]
pub enum Pattern {
    Var { location: Span },
    Assign { location: Span, pattern: Box<Pattern> },
    Int { location: Span },
    ByteArray { location: Span },
    List { location: Span, elements: Vec<Pattern>, tail: Option<Box<Pattern>> },
    Pair { location: Span, fst: Box<Pattern>, snd: Box<Pattern> },
    Tuple { location: Span, elems: Vec<Pattern> },
    Constructor { location: Span, arguments: Vec<Pattern> },
    Discard { location: Span },
}

/// A function argument: the span of its name, whether the name is discarded, its
/// annotation and its printed type.
#[derive(Debug, PartialEq, Eq)]
pub struct Arg {
    pub location: Span,
    pub discarded: bool,
    pub annotation: Option<Annotation>,
    pub type_text: String,
}

/// An argument of a call or a record update.
#[derive(Debug, PartialEq, Eq)]
pub struct CallArg {
    pub location: Span,
    pub value: Expr,
}

/// A clause of a `when` expression.
#[derive(Debug, PartialEq, Eq)]
pub struct Clause {
    pub pattern: Pattern,
    pub body: Expr,
}

/// A branch of an `if` expression, with the pattern of an `if ... is` form.
#[derive(Debug, PartialEq, Eq)]
pub struct IfBranch {
    pub is_pattern: Option<Pattern>,
    pub condition: Expr,
    pub body: Expr,
}

/// A type-checked expression.
#[allow(inconsistent_fields)]
#[derive(Debug, PartialEq, Eq)]
pub enum Expr {
    UInt { location: Span },
    String { location: Span },
    ByteArray { location: Span },
    CurvePoint { location: Span },
    Sequence { location: Span, expressions: Vec<Expr> },
    Pipeline { location: Span, expressions: Vec<Expr> },
    Var { location: Span, name: String, constructor: ValueConstructor },
    Fn {
        location: Span,
        args: Vec<Arg>,
        body: Box<Expr>,
        return_annotated: bool,
        return_type_text: String,
    },
    List { location: Span, elements: Vec<Expr>, tail: Option<Box<Expr>> },
    Call { location: Span, fun: Box<Expr>, args: Vec<CallArg> },
    BinOp { location: Span, left: Box<Expr>, right: Box<Expr> },
    Assignment {
        location: Span,
        value: Box<Expr>,
        pattern: Pattern,
        annotated: bool,
        type_text: String,
    },
    Trace { location: Span, next: Box<Expr>, text: Box<Expr> },
    When { location: Span, subject: Box<Expr>, clauses: Vec<Clause> },
    If { location: Span, branches: Vec<IfBranch>, final_else: Box<Expr> },
    RecordAccess { location: Span, record: Box<Expr> },
    ModuleSelect { location: Span, constructor: ModuleValueConstructor },
    Tuple { location: Span, elems: Vec<Expr> },
    Pair { location: Span, fst: Box<Expr>, snd: Box<Expr> },
    TupleIndex { location: Span, tuple: Box<Expr> },
    RecordUpdate { location: Span, spread: Box<Expr>, args: Vec<CallArg> },
    UnOp { location: Span, value: Box<Expr> },
    ErrorTerm { location: Span },
}

/// A named function, test, benchmark or validator handler.
#[derive(Debug, PartialEq, Eq)]
pub struct Function {
    pub location: Span,
    pub name: String,
    pub arguments: Vec<Arg>,
    pub body: Expr,
    pub return_annotated: bool,
    pub return_type_text: String,
}

/// A constructor of a data type, with the annotations of its fields.
#[derive(Debug, PartialEq, Eq)]
pub struct RecordConstructor {
    pub location: Span,
    pub name: String,
    pub field_annotations: Vec<Annotation>,
}

/// A validator with its parameters, handlers and fallback handler.
#[derive(Debug, PartialEq, Eq)]
pub struct Validator {
    pub location: Span,
    pub name: String,
    pub params: Vec<Arg>,
    pub handlers: Vec<Function>,
    pub fallback: Function,
}

/// A top-level definition of a module.
#[allow(inconsistent_fields)]
#[derive(Debug, PartialEq, Eq)]
pub enum Definition {
    Fn(Function),
    Test(Function),
    Benchmark(Function),
    TypeAlias { location: Span, alias: String, annotation: Annotation },
    DataType { location: Span, name: String, constructors: Vec<RecordConstructor> },
    ModuleConstant { location: Span, name: String, annotation: Option<Annotation>, value: Expr },
    Validator(Validator),
    Use { location: Span, module: Vec<String>, unqualified: Vec<Span> },
}

/// The node under the cursor, as far as the features read it.
#[derive(Debug, PartialEq, Eq)]
pub enum Located {
    Expression(Expr),
    Pattern { type_text: String },
    Definition(Definition),
    Argument,
    Annotation,
}

/// A value name in scope with what it stands for.
#[derive(Debug, PartialEq, Eq)]
pub struct ScopeValue {
    pub name: String,
    pub constructor: ValueConstructor,
}

/// A type name in scope with its printed type.
#[derive(Debug, PartialEq, Eq)]
pub struct ScopeType {
    pub name: String,
    pub type_text: String,
}

/// The constructor names of a type, listed under its printed name.
#[derive(Debug, PartialEq, Eq)]
pub struct TypeConstructors {
    pub name: String,
    pub constructors: Vec<String>,
}

/// What type checking learnt of a module: its name and what it has in scope.
#[derive(Debug, PartialEq, Eq)]
pub struct TypeInfo {
    pub name: String,
    pub values: Vec<ScopeValue>,
    pub types: Vec<ScopeType>,
    pub types_constructors: Vec<TypeConstructors>,
}

/// A type-checked module: its name, source, package, definitions, comments, scope
/// and the document address the server knows it by.
#[derive(Debug, PartialEq, Eq)]
pub struct CheckedModule {
    pub name: String,
    pub code: String,
    pub package: String,
    pub definitions: Vec<Definition>,
    pub doc_comments: Vec<Span>,
    pub comments: Vec<Span>,
    pub type_info: TypeInfo,
    pub uri: Option<String>,
}

/// The values in scope are keyed by name, and the constructor lists by type name:
/// no two entries share a name.
pub open spec fn type_info_wf(t: TypeInfo) -> bool {
    &&& forall|i: int, j: int|
        0 <= i < j < t.values@.len() ==> (#[trigger] t.values@[i]).name@ != (#[trigger] t.values@[j]).name@
    &&& forall|i: int, j: int|
        0 <= i < j < t.types_constructors@.len() ==> (#[trigger] t.types_constructors@[i]).name@
            != (#[trigger] t.types_constructors@[j]).name@
}

/// Whether a byte is ASCII whitespace: space, tab, line feed, vertical tab, form
/// feed or carriage return.
pub open spec fn space_byte(b: u8) -> bool {
    b == 32 || (9 <= b <= 13)
}

/// Whether a type annotation follows byte `end` of a source: the first byte from
/// `end` on that is not whitespace is the `:` that opens it.
pub open spec fn annotation_follows(bytes: Seq<u8>, end: int) -> bool {
    exists|k: int|
        end <= k < bytes.len() && bytes[k] == 58u8 && forall|j: int| end <= j < k ==> #[trigger] space_byte(
            bytes[j],
        )
}

/// Whether a binding whose pattern ends at byte `end` of `source` is annotated.
pub fn annotation_follows_at(source: &str, end: usize) -> (r: bool)
    ensures
        r == annotation_follows(source.spec_bytes(), end as int),
{
    let b = source.as_bytes();
    let n = b.len();
    let mut k = end;
    while k < n
        invariant
            n == b@.len(),
            b@ == source.spec_bytes(),
            end <= k,
            forall|j: int| end <= j < k ==> #[trigger] space_byte(b@[j]),
        decreases n - k,
    {
        if b[k] == 58 {
            assert(b@[k as int] == 58u8);
            return true;
        }
        if !(b[k] == 32 || (b[k] >= 9 && b[k] <= 13)) {
            assert(!annotation_follows(b@, end as int)) by {
                if annotation_follows(b@, end as int) {
                    let w = choose|w: int|
                        end <= w < b@.len() && b@[w] == 58u8 && forall|j: int| end <= j < w ==> #[trigger] space_byte(b@[j]);
                    if w > k {
                        assert(space_byte(b@[k as int]));
                    } else if w < k {
                        assert(space_byte(b@[w]));
                    }
                }
            }
            return false;
        }
        k = k + 1;
    }
    assert(!annotation_follows(b@, end as int)) by {
        if annotation_follows(b@, end as int) {
            let w = choose|w: int|
                end <= w < b@.len() && b@[w] == 58u8 && forall|j: int| end <= j < w ==> #[trigger] space_byte(b@[j]);
            assert(space_byte(b@[w]));
        }
    }
    false
}

/// The location of an expression.
pub open spec fn expr_location(e: Expr) -> Span {
    match e {
        Expr::UInt { location } => location,
        Expr::String { location } => location,
        Expr::ByteArray { location } => location,
        Expr::CurvePoint { location } => location,
        Expr::Sequence { location, .. } => location,
        Expr::Pipeline { location, .. } => location,
        Expr::Var { location, .. } => location,
        Expr::Fn { location, .. } => location,
        Expr::List { location, .. } => location,
        Expr::Call { location, .. } => location,
        Expr::BinOp { location, .. } => location,
        Expr::Assignment { location, .. } => location,
        Expr::Trace { location, .. } => location,
        Expr::When { location, .. } => location,
        Expr::If { location, .. } => location,
        Expr::RecordAccess { location, .. } => location,
        Expr::ModuleSelect { location, .. } => location,
        Expr::Tuple { location, .. } => location,
        Expr::Pair { location, .. } => location,
        Expr::TupleIndex { location, .. } => location,
        Expr::RecordUpdate { location, .. } => location,
        Expr::UnOp { location, .. } => location,
        Expr::ErrorTerm { location } => location,
    }
}

impl Expr {
    /// The location of the expression.
    pub fn location(&self) -> (r: Span)
        ensures
            r == expr_location(*self),
    {
        match self {
            Expr::UInt { location } => *location,
            Expr::String { location } => *location,
            Expr::ByteArray { location } => *location,
            Expr::CurvePoint { location } => *location,
            Expr::Sequence { location, .. } => *location,
            Expr::Pipeline { location, .. } => *location,
            Expr::Var { location, .. } => *location,
            Expr::Fn { location, .. } => *location,
            Expr::List { location, .. } => *location,
            Expr::Call { location, .. } => *location,
            Expr::BinOp { location, .. } => *location,
            Expr::Assignment { location, .. } => *location,
            Expr::Trace { location, .. } => *location,
            Expr::When { location, .. } => *location,
            Expr::If { location, .. } => *location,
            Expr::RecordAccess { location, .. } => *location,
            Expr::ModuleSelect { location, .. } => *location,
            Expr::Tuple { location, .. } => *location,
            Expr::Pair { location, .. } => *location,
            Expr::TupleIndex { location, .. } => *location,
            Expr::RecordUpdate { location, .. } => *location,
            Expr::UnOp { location, .. } => *location,
            Expr::ErrorTerm { location } => *location,
        }
    }
}

/// The location of a pattern; an `as` binding answers the location of the pattern
/// it names.
pub open spec fn pattern_location(p: Pattern) -> Span
    decreases p,
{
    match p {
        Pattern::Var { location } => location,
        Pattern::Assign { pattern, .. } => pattern_location(*pattern),
        Pattern::Int { location } => location,
        Pattern::ByteArray { location } => location,
        Pattern::List { location, .. } => location,
        Pattern::Pair { location, .. } => location,
        Pattern::Tuple { location, .. } => location,
        Pattern::Constructor { location, .. } => location,
        Pattern::Discard { location } => location,
    }
}

impl Pattern {
    /// The location of the pattern.
    pub fn location(&self) -> (r: Span)
        ensures
            r == pattern_location(*self),
        decreases self,
    {
        match self {
            Pattern::Var { location } => *location,
            Pattern::Assign { pattern, .. } => pattern.location(),
            Pattern::Int { location } => *location,
            Pattern::ByteArray { location } => *location,
            Pattern::List { location, .. } => *location,
            Pattern::Pair { location, .. } => *location,
            Pattern::Tuple { location, .. } => *location,
            Pattern::Constructor { location, .. } => *location,
            Pattern::Discard { location } => *location,
        }
    }
}

/// The location of a definition.
pub open spec fn definition_location(d: Definition) -> Span {
    match d {
        Definition::Fn(f) => f.location,
        Definition::Test(f) => f.location,
        Definition::Benchmark(f) => f.location,
        Definition::TypeAlias { location, .. } => location,
        Definition::DataType { location, .. } => location,
        Definition::ModuleConstant { location, .. } => location,
        Definition::Validator(v) => v.location,
        Definition::Use { location, .. } => location,
    }
}

impl Definition {
    /// The location of the definition.
    pub fn location(&self) -> (r: Span)
        ensures
            r == definition_location(*self),
    {
        match self {
            Definition::Fn(f) => f.location,
            Definition::Test(f) => f.location,
            Definition::Benchmark(f) => f.location,
            Definition::TypeAlias { location, .. } => *location,
            Definition::DataType { location, .. } => *location,
            Definition::ModuleConstant { location, .. } => *location,
            Definition::Validator(v) => v.location,
            Definition::Use { location, .. } => *location,
        }
    }
}

} // verus!
