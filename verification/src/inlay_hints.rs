//! Inlay hints: the types of unannotated arguments, bindings and return values,
//! shown inline.
use vstd::prelude::*;
use vstd::utf8::encode_utf8;
use crate::ast::{
    Arg, CallArg, CheckedModule, Clause, Definition, Expr, Function, IfBranch, Pattern, expr_location,
    pattern_location, definition_location,
};
use crate::server::Server;
use crate::span::{
    LineNumbers, Position, Range, Span, byte_index_of, is_resolvable, line_starts_of, position_of,
    resolvable, span_to_lsp_range,
};

verus! {

broadcast use vstd::seq_lib::group_seq_properties;

/// A hint before it is placed: the byte offset it stands at and its label.
pub struct HintMark {
    pub offset: usize,
    pub label: Seq<char>,
}

/// A hint being collected.
pub struct PendingHint {
    pub offset: usize,
    pub label: String,
}

pub open spec fn hint_marks(v: Seq<PendingHint>) -> Seq<HintMark> {
    v.map_values(|h: PendingHint| HintMark { offset: h.offset, label: h.label@ })
}

/// A type hint after an argument name: `: T`, unless the argument is discarded or
/// annotated.
pub open spec fn arg_hints(a: Arg) -> Seq<HintMark> {
    if a.discarded || a.annotation is Some {
        Seq::empty()
    } else {
        seq![HintMark { offset: a.location.end, label: ": "@ + a.type_text@ }]
    }
}

pub open spec fn args_hints(s: Seq<Arg>) -> Seq<HintMark>
    decreases s.len(),
{
    if s.len() == 0 {
        Seq::empty()
    } else {
        args_hints(s.drop_last()) + arg_hints(s.last())
    }
}

/// A return type hint `-> T ` before a body, unless the return type is annotated.
pub open spec fn return_hint(annotated: bool, body: Expr, type_text: Seq<char>) -> Seq<HintMark> {
    if annotated {
        Seq::empty()
    } else {
        seq![HintMark { offset: expr_location(body).start, label: "-> "@ + type_text + " "@ }]
    }
}

pub open spec fn expr_hints(e: Expr) -> Seq<HintMark>
    decreases e,
{
    match e {
        Expr::Assignment { pattern, annotated, type_text, value, .. } => if annotated {
            expr_hints(*value)
        } else {
            seq![HintMark { offset: pattern_location(pattern).end, label: ": "@ + type_text@ }]
                + expr_hints(*value)
        },
        Expr::Sequence { expressions, .. } => exprs_hints(expressions@),
        Expr::Pipeline { expressions, .. } => exprs_hints(expressions@),
        Expr::Call { fun, args, .. } => expr_hints(*fun) + call_args_hints(args@),
        Expr::When { subject, clauses, .. } => expr_hints(*subject) + clauses_hints(clauses@),
        Expr::If { branches, final_else, .. } => branches_hints(branches@) + expr_hints(
            *final_else,
        ),
        Expr::Fn { args, body, return_annotated, return_type_text, .. } => args_hints(args@)
            + return_hint(return_annotated, *body, return_type_text@) + expr_hints(*body),
        Expr::Trace { next, text, .. } => expr_hints(*next) + expr_hints(*text),
        Expr::BinOp { left, right, .. } => expr_hints(*left) + expr_hints(*right),
        Expr::UnOp { value, .. } => expr_hints(*value),
        Expr::List { elements, tail, .. } => exprs_hints(elements@) + match tail {
            Some(t) => expr_hints(*t),
            None => Seq::empty(),
        },
        Expr::RecordAccess { record, .. } => expr_hints(*record),
        Expr::Tuple { elems, .. } => exprs_hints(elems@),
        Expr::Pair { fst, snd, .. } => expr_hints(*fst) + expr_hints(*snd),
        Expr::TupleIndex { tuple, .. } => expr_hints(*tuple),
        Expr::RecordUpdate { spread, args, .. } => expr_hints(*spread) + call_args_hints(args@),
        _ => Seq::empty(),
    }
}

pub open spec fn exprs_hints(s: Seq<Expr>) -> Seq<HintMark>
    decreases s,
{
    if s.len() == 0 {
        Seq::empty()
    } else {
        exprs_hints(s.drop_last()) + expr_hints(s.last())
    }
}

pub open spec fn call_args_hints(s: Seq<CallArg>) -> Seq<HintMark>
    decreases s,
{
    if s.len() == 0 {
        Seq::empty()
    } else {
        call_args_hints(s.drop_last()) + expr_hints(s.last().value)
    }
}

pub open spec fn clauses_hints(s: Seq<Clause>) -> Seq<HintMark>
    decreases s,
{
    if s.len() == 0 {
        Seq::empty()
    } else {
        clauses_hints(s.drop_last()) + expr_hints(s.last().body)
    }
}

pub open spec fn branches_hints(s: Seq<IfBranch>) -> Seq<HintMark>
    decreases s,
{
    if s.len() == 0 {
        Seq::empty()
    } else {
        branches_hints(s.drop_last()) + expr_hints(s.last().condition) + expr_hints(
            s.last().body,
        )
    }
}

pub open spec fn function_hints(f: Function) -> Seq<HintMark> {
    args_hints(f.arguments@) + return_hint(f.return_annotated, f.body, f.return_type_text@)
        + expr_hints(f.body)
}

pub open spec fn functions_hints(s: Seq<Function>) -> Seq<HintMark>
    decreases s.len(),
{
    if s.len() == 0 {
        Seq::empty()
    } else {
        functions_hints(s.drop_last()) + function_hints(s.last())
    }
}

/// The hints of a definition: functions, tests and benchmarks by their arguments,
/// return type and body; validators by their parameters and handlers; others none.
pub open spec fn definition_hints(d: Definition) -> Seq<HintMark> {
    match d {
        Definition::Fn(f) => function_hints(f),
        Definition::Validator(v) => args_hints(v.params@) + functions_hints(v.handlers@)
            + function_hints(v.fallback),
        Definition::Test(f) => function_hints(f),
        Definition::Benchmark(f) => function_hints(f),
        _ => Seq::empty(),
    }
}

proof fn lemma_hints_concat(a: Seq<HintMark>, b: Seq<HintMark>, x: HintMark)
    requires
        a.contains(x) || b.contains(x),
    ensures
        (a + b).contains(x),
{
    if a.contains(x) {
        let k = choose|k: int| 0 <= k < a.len() && a[k] == x;
        assert((a + b)[k] == x);
    } else {
        let k = choose|k: int| 0 <= k < b.len() && b[k] == x;
        assert((a + b)[a.len() + k] == x);
    }
}

proof fn lemma_args_hints_contain(s: Seq<Arg>, j: int)
    requires
        0 <= j < s.len(),
        !s[j].discarded,
        s[j].annotation is None,
    ensures
        args_hints(s).contains(HintMark { offset: s[j].location.end, label: ": "@ + s[j].type_text@ }),
    decreases s.len(),
{
    let x = HintMark { offset: s[j].location.end, label: ": "@ + s[j].type_text@ };
    let t = s.drop_last();
    if j == s.len() - 1 {
        assert(arg_hints(s.last())[0] == x);
    } else {
        assert(t[j] == s[j]);
        lemma_args_hints_contain(t, j);
    }
    lemma_hints_concat(args_hints(t), arg_hints(s.last()), x);
}

/// The hints of a function: a `: T` hint after each argument that is neither
/// discarded nor annotated, a `-> T ` hint before the body where the return type is
/// not annotated, and every hint of the body.
pub proof fn lemma_function_hints_cover(f: Function, j: int, x: HintMark)
    ensures
        0 <= j < f.arguments@.len() && !f.arguments@[j].discarded && f.arguments@[j].annotation is None
            ==> function_hints(f).contains(
            HintMark {
                offset: f.arguments@[j].location.end,
                label: ": "@ + f.arguments@[j].type_text@,
            },
        ),
        !f.return_annotated ==> function_hints(f).contains(
            HintMark {
                offset: expr_location(f.body).start,
                label: "-> "@ + f.return_type_text@ + " "@,
            },
        ),
        expr_hints(f.body).contains(x) ==> function_hints(f).contains(x),
{
    let a = args_hints(f.arguments@);
    let r = return_hint(f.return_annotated, f.body, f.return_type_text@);
    let b = expr_hints(f.body);
    if 0 <= j < f.arguments@.len() && !f.arguments@[j].discarded && f.arguments@[j].annotation is None {
        let y = HintMark { offset: f.arguments@[j].location.end, label: ": "@ + f.arguments@[j].type_text@ };
        lemma_args_hints_contain(f.arguments@, j);
        lemma_hints_concat(a, r, y);
        lemma_hints_concat(a + r, b, y);
    }
    if !f.return_annotated {
        let y = HintMark { offset: expr_location(f.body).start, label: "-> "@ + f.return_type_text@ + " "@ };
        assert(r[0] == y);
        lemma_hints_concat(a, r, y);
        lemma_hints_concat(a + r, b, y);
    }
    if b.contains(x) {
        lemma_hints_concat(a + r, b, x);
    }
}

/// A let binding without an annotation is hinted with its type right after its
/// pattern, before the hints of its value; an annotated one adds no hint of its own.
pub proof fn lemma_binding_hints(
    location: Span,
    value: Box<Expr>,
    pattern: Pattern,
    annotated: bool,
    type_text: String,
    x: HintMark,
)
    ensures
        !annotated ==> expr_hints(Expr::Assignment { location, value, pattern, annotated, type_text })[0]
            == (HintMark { offset: pattern_location(pattern).end, label: ": "@ + type_text@ }),
        annotated ==> expr_hints(Expr::Assignment { location, value, pattern, annotated, type_text })
            == expr_hints(*value),
        expr_hints(*value).contains(x) ==> expr_hints(
            Expr::Assignment { location, value, pattern, annotated, type_text },
        ).contains(x),
{
    let e = Expr::Assignment { location, value, pattern, annotated, type_text };
    if !annotated {
        let own = seq![HintMark { offset: pattern_location(pattern).end, label: ": "@ + type_text@ }];
        assert(expr_hints(e) == own + expr_hints(*value));
        if expr_hints(*value).contains(x) {
            lemma_hints_concat(own, expr_hints(*value), x);
        }
    }
}

/// An anonymous function whose return type is not annotated is hinted with that
/// return type before its body; the hints of its body follow.
pub proof fn lemma_lambda_hints(
    location: Span,
    args: Vec<Arg>,
    body: Box<Expr>,
    return_type_text: String,
    x: HintMark,
)
    ensures
        expr_hints(Expr::Fn { location, args, body, return_annotated: false, return_type_text })
            .contains(
            HintMark { offset: expr_location(*body).start, label: "-> "@ + return_type_text@ + " "@ },
        ),
        expr_hints(*body).contains(x) ==> expr_hints(
            Expr::Fn { location, args, body, return_annotated: false, return_type_text },
        ).contains(x),
{
    let a = args_hints(args@);
    let r = return_hint(false, *body, return_type_text@);
    let y = HintMark { offset: expr_location(*body).start, label: "-> "@ + return_type_text@ + " "@ };
    assert(r[0] == y);
    lemma_hints_concat(a, r, y);
    lemma_hints_concat(a + r, expr_hints(*body), y);
    if expr_hints(*body).contains(x) {
        lemma_hints_concat(a + r, expr_hints(*body), x);
    }
}

proof fn lemma_exprs_hints_contain(s: Seq<Expr>, k: int, x: HintMark)
    requires
        0 <= k < s.len(),
        expr_hints(s[k]).contains(x),
    ensures
        exprs_hints(s).contains(x),
    decreases s.len(),
{
    let t = s.drop_last();
    if k < s.len() - 1 {
        assert(t[k] == s[k]);
        lemma_exprs_hints_contain(t, k, x);
    }
    lemma_hints_concat(exprs_hints(t), expr_hints(s.last()), x);
}

/// A block's hints hold the hints of each of its expressions.
pub proof fn lemma_sequence_hints(location: Span, expressions: Vec<Expr>, k: int, x: HintMark)
    requires
        0 <= k < expressions@.len(),
        expr_hints(expressions@[k]).contains(x),
    ensures
        expr_hints(Expr::Sequence { location, expressions }).contains(x),
        expr_hints(Expr::Pipeline { location, expressions }).contains(x),
{
    lemma_exprs_hints_contain(expressions@, k, x);
}

/// The functions a definition holds: a function, test or benchmark itself; each
/// handler of a validator and then its fallback; nothing for other definitions.
pub open spec fn definition_functions(d: Definition) -> Seq<Function> {
    match d {
        Definition::Fn(f) => seq![f],
        Definition::Test(f) => seq![f],
        Definition::Benchmark(f) => seq![f],
        Definition::Validator(v) => v.handlers@.push(v.fallback),
        _ => Seq::empty(),
    }
}

proof fn lemma_functions_hints_contain(s: Seq<Function>, k: int, x: HintMark)
    requires
        0 <= k < s.len(),
        function_hints(s[k]).contains(x),
    ensures
        functions_hints(s).contains(x),
    decreases s.len(),
{
    let t = s.drop_last();
    if k < s.len() - 1 {
        assert(t[k] == s[k]);
        lemma_functions_hints_contain(t, k, x);
    }
    lemma_hints_concat(functions_hints(t), function_hints(s.last()), x);
}

/// The hints of a definition hold every hint of every function it holds (for a
/// validator, each handler and the fallback), and for a validator the hints of its
/// parameters.
pub proof fn lemma_definition_hints_cover(d: Definition, k: int, x: HintMark)
    ensures
        0 <= k < definition_functions(d).len() && function_hints(definition_functions(d)[k]).contains(x)
            ==> definition_hints(d).contains(x),
        (d matches Definition::Validator(v) && args_hints(v.params@).contains(x)) ==> definition_hints(
            d,
        ).contains(x),
{
    match d {
        Definition::Validator(v) => {
            let p = args_hints(v.params@);
            let h = functions_hints(v.handlers@);
            let fb = function_hints(v.fallback);
            if 0 <= k < definition_functions(d).len() && function_hints(definition_functions(d)[k]).contains(x) {
                if k < v.handlers@.len() {
                    assert(definition_functions(d)[k] == v.handlers@[k]);
                    lemma_functions_hints_contain(v.handlers@, k, x);
                    lemma_hints_concat(p, h, x);
                    lemma_hints_concat(p + h, fb, x);
                } else {
                    assert(definition_functions(d)[k] == v.fallback);
                    lemma_hints_concat(p + h, fb, x);
                }
            }
            if p.contains(x) {
                lemma_hints_concat(p, h, x);
                lemma_hints_concat(p + h, fb, x);
            }
        },
        _ => {},
    }
}

fn push_hint(out: &mut Vec<PendingHint>, offset: usize, label: String)
    ensures
        hint_marks(final(out)@) == hint_marks(old(out)@).push(HintMark { offset, label: label@ }),
{
    let ghost l = label@;
    out.push(PendingHint { offset, label });
    assert(hint_marks(out@) =~= hint_marks(old(out)@).push(HintMark { offset, label: l }));
}

fn type_label(prefix: &str, type_text: &String, suffix: &str) -> (r: String)
    ensures
        r@ == prefix@ + type_text@ + suffix@,
{
    let mut s = String::new();
    s.append(prefix);
    s.append(type_text.as_str());
    s.append(suffix);
    s
}

fn collect_arg_hint(arg: &Arg, out: &mut Vec<PendingHint>)
    ensures
        hint_marks(final(out)@) == hint_marks(old(out)@) + arg_hints(*arg),
{
    if arg.discarded {
        return;
    }
    if arg.annotation.is_some() {
        return;
    }
    proof {
        reveal_strlit("");
    }
    let label = type_label(": ", &arg.type_text, "");
    push_hint(out, arg.location.end, label);
}

fn collect_arg_hints(s: &Vec<Arg>, out: &mut Vec<PendingHint>)
    ensures
        hint_marks(final(out)@) == hint_marks(old(out)@) + args_hints(s@),
{
    let n = s.len();
    let mut i: usize = 0;
    while i < n
        invariant
            n == s@.len(),
            i <= n,
            hint_marks(out@) == hint_marks(old(out)@) + args_hints(s@.take(i as int)),
        decreases n - i,
    {
        assert(s@.take(i + 1).drop_last() == s@.take(i as int));
        collect_arg_hint(&s[i], out);
        i = i + 1;
    }
    assert(s@.take(n as int) == s@);
}

fn collect_return_hint(annotated: bool, body: &Expr, type_text: &String, out: &mut Vec<PendingHint>)
    ensures
        hint_marks(final(out)@) == hint_marks(old(out)@) + return_hint(
            annotated,
            *body,
            type_text@,
        ),
{
    if !annotated {
        let body_start = body.location().start;
        let label = type_label("-> ", type_text, " ");
        push_hint(out, body_start, label);
    }
}

fn collect_function_hints(f: &Function, out: &mut Vec<PendingHint>)
    ensures
        hint_marks(final(out)@) == hint_marks(old(out)@) + function_hints(*f),
{
    collect_arg_hints(&f.arguments, out);
    collect_return_hint(f.return_annotated, &f.body, &f.return_type_text, out);
    collect_expr_hints(&f.body, out);
}

fn collect_expr_hints(e: &Expr, out: &mut Vec<PendingHint>)
    ensures
        hint_marks(final(out)@) == hint_marks(old(out)@) + expr_hints(*e),
    decreases e,
{
    match e {
        Expr::Assignment { pattern, annotated, type_text, value, .. } => {
            if !*annotated {
                proof {
                    reveal_strlit("");
                }
                let label = type_label(": ", type_text, "");
                push_hint(out, pattern.location().end, label);
            }
            collect_expr_hints(value, out);
        },
        Expr::Sequence { expressions, .. } => collect_exprs_hints(expressions, out),
        Expr::Pipeline { expressions, .. } => collect_exprs_hints(expressions, out),
        Expr::Call { fun, args, .. } => {
            collect_expr_hints(fun, out);
            collect_call_args_hints(args, out);
        },
        Expr::When { subject, clauses, .. } => {
            collect_expr_hints(subject, out);
            collect_clauses_hints(clauses, out);
        },
        Expr::If { branches, final_else, .. } => {
            collect_branches_hints(branches, out);
            collect_expr_hints(final_else, out);
        },
        Expr::Fn { args, body, return_annotated, return_type_text, .. } => {
            collect_arg_hints(args, out);
            collect_return_hint(*return_annotated, body, return_type_text, out);
            collect_expr_hints(body, out);
        },
        Expr::Trace { next, text, .. } => {
            collect_expr_hints(next, out);
            collect_expr_hints(text, out);
        },
        Expr::BinOp { left, right, .. } => {
            collect_expr_hints(left, out);
            collect_expr_hints(right, out);
        },
        Expr::UnOp { value, .. } => collect_expr_hints(value, out),
        Expr::List { elements, tail, .. } => {
            collect_exprs_hints(elements, out);
            match tail {
                Some(t) => collect_expr_hints(t, out),
                None => {},
            }
        },
        Expr::RecordAccess { record, .. } => collect_expr_hints(record, out),
        Expr::Tuple { elems, .. } => collect_exprs_hints(elems, out),
        Expr::Pair { fst, snd, .. } => {
            collect_expr_hints(fst, out);
            collect_expr_hints(snd, out);
        },
        Expr::TupleIndex { tuple, .. } => collect_expr_hints(tuple, out),
        Expr::RecordUpdate { spread, args, .. } => {
            collect_expr_hints(spread, out);
            collect_call_args_hints(args, out);
        },
        _ => {},
    }
}

fn collect_exprs_hints(s: &Vec<Expr>, out: &mut Vec<PendingHint>)
    ensures
        hint_marks(final(out)@) == hint_marks(old(out)@) + exprs_hints(s@),
    decreases s,
{
    let n = s.len();
    let mut i: usize = 0;
    while i < n
        invariant
            n == s@.len(),
            i <= n,
            hint_marks(out@) == hint_marks(old(out)@) + exprs_hints(s@.take(i as int)),
        decreases n - i,
    {
        assert(s@.take(i + 1).drop_last() == s@.take(i as int));
        collect_expr_hints(&s[i], out);
        i = i + 1;
    }
    assert(s@.take(n as int) == s@);
}

fn collect_call_args_hints(s: &Vec<CallArg>, out: &mut Vec<PendingHint>)
    ensures
        hint_marks(final(out)@) == hint_marks(old(out)@) + call_args_hints(s@),
    decreases s,
{
    let n = s.len();
    let mut i: usize = 0;
    while i < n
        invariant
            n == s@.len(),
            i <= n,
            hint_marks(out@) == hint_marks(old(out)@) + call_args_hints(s@.take(i as int)),
        decreases n - i,
    {
        assert(s@.take(i + 1).drop_last() == s@.take(i as int));
        collect_expr_hints(&s[i].value, out);
        i = i + 1;
    }
    assert(s@.take(n as int) == s@);
}

fn collect_clauses_hints(s: &Vec<Clause>, out: &mut Vec<PendingHint>)
    ensures
        hint_marks(final(out)@) == hint_marks(old(out)@) + clauses_hints(s@),
    decreases s,
{
    let n = s.len();
    let mut i: usize = 0;
    while i < n
        invariant
            n == s@.len(),
            i <= n,
            hint_marks(out@) == hint_marks(old(out)@) + clauses_hints(s@.take(i as int)),
        decreases n - i,
    {
        assert(s@.take(i + 1).drop_last() == s@.take(i as int));
        collect_expr_hints(&s[i].body, out);
        i = i + 1;
    }
    assert(s@.take(n as int) == s@);
}

fn collect_branches_hints(s: &Vec<IfBranch>, out: &mut Vec<PendingHint>)
    ensures
        hint_marks(final(out)@) == hint_marks(old(out)@) + branches_hints(s@),
    decreases s,
{
    let n = s.len();
    let mut i: usize = 0;
    while i < n
        invariant
            n == s@.len(),
            i <= n,
            hint_marks(out@) == hint_marks(old(out)@) + branches_hints(s@.take(i as int)),
        decreases n - i,
    {
        assert(s@.take(i + 1).drop_last() == s@.take(i as int));
        collect_expr_hints(&s[i].condition, out);
        collect_expr_hints(&s[i].body, out);
        i = i + 1;
    }
    assert(s@.take(n as int) == s@);
}

/// Collects the hints of one definition.
pub fn collect_definition_hints(def: &Definition, out: &mut Vec<PendingHint>)
    ensures
        hint_marks(final(out)@) == hint_marks(old(out)@) + definition_hints(*def),
{
    match def {
        Definition::Fn(f) => collect_function_hints(f, out),
        Definition::Validator(v) => {
            collect_arg_hints(&v.params, out);
            let n = v.handlers.len();
            let mut i: usize = 0;
            let ghost start = hint_marks(out@);
            while i < n
                invariant
                    n == v.handlers@.len(),
                    i <= n,
                    hint_marks(out@) == start + functions_hints(v.handlers@.take(i as int)),
                decreases n - i,
            {
                assert(v.handlers@.take(i + 1).drop_last() == v.handlers@.take(i as int));
                collect_function_hints(&v.handlers[i], out);
                i = i + 1;
            }
            assert(v.handlers@.take(n as int) == v.handlers@);
            collect_function_hints(&v.fallback, out);
        },
        Definition::Test(f) => collect_function_hints(f, out),
        Definition::Benchmark(f) => collect_function_hints(f, out),
        _ => {},
    }
}

/// The kind of a hint; every hint here is a type hint.
#[derive(Clone, Copy, Debug, PartialEq, Eq)]
pub enum InlayHintKind {
    Type,
}

/// A placed hint: its position, label, kind and padding.
pub struct InlayHint {
    pub position: Position,
    pub label: String,
    pub kind: InlayHintKind,
    pub padding_left: bool,
    pub padding_right: bool,
}

/// A type hint at `position`, padded on the left only.
pub fn make_hint(position: Position, label: String) -> (r: InlayHint)
    ensures
        r.position == position,
        r.label@ == label@,
        r.kind == InlayHintKind::Type,
        r.padding_left,
        !r.padding_right,
{
    InlayHint {
        position,
        label,
        kind: InlayHintKind::Type,
        padding_left: true,
        padding_right: false,
    }
}

/// Whether a definition is kept for a requested byte range: it does not start after
/// the range's end and does not end at or before the range's start.
pub open spec fn overlaps(loc: Span, range_start: int, range_end: int) -> bool {
    !(loc.start > range_end || loc.end <= range_start)
}

/// The hints of the definitions kept for the range, in order.
pub open spec fn definitions_hints(s: Seq<Definition>, range_start: int, range_end: int) -> Seq<
    HintMark,
>
    decreases s.len(),
{
    if s.len() == 0 {
        Seq::empty()
    } else {
        definitions_hints(s.drop_last(), range_start, range_end) + if overlaps(
            definition_location(s.last()),
            range_start,
            range_end,
        ) {
            definition_hints(s.last())
        } else {
            Seq::empty()
        }
    }
}

/// Whether every hint offset has a line.
pub open spec fn hints_resolvable(bytes: Seq<u8>, hs: Seq<HintMark>) -> bool {
    forall|i: int| 0 <= i < hs.len() ==> resolvable(bytes, #[trigger] hs[i].offset)
}

/// Whether a placed hint is the hint mark at its position in `bytes`.
pub open spec fn hint_placed(bytes: Seq<u8>, h: InlayHint, m: HintMark) -> bool {
    &&& h.position == position_of(bytes, m.offset)
    &&& h.label@ == m.label
    &&& h.kind == InlayHintKind::Type
    &&& h.padding_left
    &&& !h.padding_right
}

/// The byte range a requested editor range covers in `bytes`.
pub open spec fn request_start(bytes: Seq<u8>, range: Range) -> int {
    byte_index_of(bytes, range.start.line as usize, range.start.character as usize)
}

pub open spec fn request_end(bytes: Seq<u8>, range: Range) -> int {
    byte_index_of(bytes, range.end.line as usize, range.end.character as usize)
}

/// Whether the byte offsets of both ends of a range fit the machine's integers.
pub open spec fn range_fits(bytes: Seq<u8>, range: Range) -> bool {
    let s = line_starts_of(bytes);
    &&& (range.start.line as int) < s.len() ==> s[range.start.line as int]
        + range.start.character <= usize::MAX
    &&& (range.end.line as int) < s.len() ==> s[range.end.line as int] + range.end.character
        <= usize::MAX
}

/// The hint marks of a module for a requested range.
pub open spec fn module_hints(m: CheckedModule, range: Range) -> Seq<HintMark> {
    let bytes = encode_utf8(m.code@);
    definitions_hints(m.definitions@, request_start(bytes, range), request_end(bytes, range))
}

/// The pending hints of the definitions of `module` that overlap the byte range
/// the requested range covers.
fn module_pending_hints(module: &CheckedModule, line_numbers: &LineNumbers, range: Range) -> (r: Vec<
    PendingHint,
>)
    requires
        line_numbers.wf(),
        line_numbers.text() == encode_utf8(module.code@),
        range_fits(encode_utf8(module.code@), range),
    ensures
        hint_marks(r@) == module_hints(*module, range),
{
    let range_start = line_numbers.byte_index(
        range.start.line as usize,
        range.start.character as usize,
    );
    let range_end = line_numbers.byte_index(range.end.line as usize, range.end.character as usize);
    let mut pending: Vec<PendingHint> = Vec::new();
    let defs = &module.definitions;
    let n = defs.len();
    let mut i: usize = 0;
    while i < n
        invariant
            n == defs@.len(),
            i <= n,
            hint_marks(pending@) == definitions_hints(
                defs@.take(i as int),
                range_start as int,
                range_end as int,
            ),
        decreases n - i,
    {
        assert(defs@.take(i + 1).drop_last() == defs@.take(i as int));
        let def_loc = defs[i].location();
        if def_loc.start > range_end || def_loc.end <= range_start {
        } else {
            collect_definition_hints(&defs[i], &mut pending);
        }
        i = i + 1;
    }
    assert(defs@.take(n as int) == defs@);
    pending
}

/// Whether a request for the hints of `module` in `range` can be answered: both
/// ends of the range have byte offsets that fit the machine's integers, and every
/// hint has a line.
pub fn inlay_hints_ready(module: &CheckedModule, range: Range) -> (r: bool)
    ensures
        r == (range_fits(encode_utf8(module.code@), range) && hints_resolvable(
            encode_utf8(module.code@),
            module_hints(*module, range),
        )),
{
    let line_numbers = LineNumbers::new(module.code.as_str());
    if !line_numbers.byte_index_fits(range.start.line as usize, range.start.character as usize)
        || !line_numbers.byte_index_fits(range.end.line as usize, range.end.character as usize) {
        return false;
    }
    let pending = module_pending_hints(module, &line_numbers, range);
    let ghost bytes = encode_utf8(module.code@);
    let ghost hs = hint_marks(pending@);
    let m = pending.len();
    let mut j: usize = 0;
    while j < m
        invariant
            m == pending@.len(),
            j <= m,
            hs == hint_marks(pending@),
            hs == module_hints(*module, range),
            line_numbers.wf(),
            line_numbers.text() == bytes,
            bytes == encode_utf8(module.code@),
            forall|k: int| 0 <= k < j ==> resolvable(bytes, #[trigger] hs[k].offset),
        decreases m - j,
    {
        if !is_resolvable(&line_numbers, pending[j].offset) {
            assert(!resolvable(bytes, hs[j as int].offset));
            return false;
        }
        j = j + 1;
    }
    true
}

impl Server {
    /// The inlay hints of the definitions of `module` that overlap the requested
    /// range; `None` where there is no module or no hint.
    pub fn inlay_hints(&self, module: Option<&CheckedModule>, range: Range) -> (r: Option<
        Vec<InlayHint>,
    >)
        requires
            module matches Some(m) ==> range_fits(encode_utf8(m.code@), range) && hints_resolvable(
                encode_utf8(m.code@),
                module_hints(*m, range),
            ),
        ensures
            match module {
                None => r is None,
                Some(m) => {
                    let hs = module_hints(*m, range);
                    if hs.len() == 0 {
                        r is None
                    } else {
                        r matches Some(v) && v@.len() == hs.len() && forall|i: int|
                            0 <= i < hs.len() ==> hint_placed(
                                encode_utf8(m.code@),
                                #[trigger] v@[i],
                                hs[i],
                            )
                    }
                },
            },
    {
        let module = match module {
            Some(m) => m,
            None => return None,
        };
        let line_numbers = LineNumbers::new(module.code.as_str());
        let pending = module_pending_hints(module, &line_numbers, range);
        let ghost bytes = encode_utf8(module.code@);
        let ghost hs = hint_marks(pending@);
        let mut hints: Vec<InlayHint> = Vec::new();
        let m = pending.len();
        let mut j: usize = 0;
        while j < m
            invariant
                m == pending@.len(),
                j <= m,
                hs == hint_marks(pending@),
                line_numbers.wf(),
                line_numbers.text() == bytes,
                hints_resolvable(bytes, hs),
                hints@.len() == j,
                forall|k: int| 0 <= k < j ==> hint_placed(bytes, #[trigger] hints@[k], hs[k]),
            decreases m - j,
        {
            let offset = pending[j].offset;
            assert(resolvable(bytes, hs[j as int].offset));
            let pos = span_to_lsp_range(Span { start: offset, end: offset }, &line_numbers).start;
            let label = pending[j].label.clone();
            hints.push(make_hint(pos, label));
            j = j + 1;
        }
        if hints.len() == 0 {
            None
        } else {
            Some(hints)
        }
    }
}

} // verus!
