//! Signature help: the signature of the innermost call around the cursor and the
//! argument the cursor is in.
use vstd::prelude::*;
use vstd::utf8::encode_utf8;
use crate::ast::{
    CallArg, CheckedModule, Clause, Definition, Expr, Field, FieldMap, Function, IfBranch,
    ModuleValueConstructor, ValueConstructor, ValueConstructorVariant, expr_location,
};
use crate::fields::{copy_fields, sort_fields, sorted_fields};
use crate::span::{Span, LineNumbers, byte_index_of, line_starts_of};
use crate::text::{decimal, join, join_seq, push_decimal, views};

verus! {

broadcast use vstd::seq_lib::group_seq_properties;

/// What a signature is built from: the callee's name, arity, labelled arguments (if
/// it has a field map) and printed return type.
pub struct CallTarget {
    pub name: String,
    pub arity: usize,
    pub fields: Option<Vec<Field>>,
    pub return_type_text: String,
}

/// The plain content of a call target.
pub struct TargetView {
    pub name: Seq<char>,
    pub arity: usize,
    pub fields: Option<Seq<Field>>,
    pub return_type_text: Seq<char>,
}

pub open spec fn fields_view(fm: Option<FieldMap>) -> Option<Seq<Field>> {
    match fm {
        Some(m) => Some(m.fields@),
        None => None,
    }
}

impl CallTarget {
    pub open spec fn view(&self) -> TargetView {
        TargetView {
            name: self.name@,
            arity: self.arity,
            fields: match self.fields {
                Some(v) => Some(v@),
                None => None,
            },
            return_type_text: self.return_type_text@,
        }
    }
}

pub open spec fn target_view_of(t: Option<CallTarget>) -> Option<TargetView> {
    match t {
        Some(c) => Some(c.view()),
        None => None,
    }
}

/// The target of a value in scope: functions and record constructors have one,
/// variables and constants none.
pub open spec fn value_target(v: ValueConstructor) -> Option<TargetView> {
    match v.variant {
        ValueConstructorVariant::ModuleFn { name, arity, field_map } => Some(
            TargetView {
                name: name@,
                arity,
                fields: fields_view(field_map),
                return_type_text: return_text(v.type_text, v.fn_return_text),
            },
        ),
        ValueConstructorVariant::Record { name, arity, field_map, .. } => Some(
            TargetView {
                name: name@,
                arity,
                fields: fields_view(field_map),
                return_type_text: return_text(v.type_text, v.fn_return_text),
            },
        ),
        _ => None,
    }
}

/// The target of a qualified name: a qualified function or record with its arity and
/// labelled arguments; a qualified constant ends the search (`None`).
pub open spec fn module_target(m: ModuleValueConstructor) -> Option<Option<TargetView>> {
    match m {
        ModuleValueConstructor::Record { name, arity, field_map, type_text, fn_return_text } => Some(
            Some(
                TargetView {
                    name: name@,
                    arity,
                    fields: fields_view(field_map),
                    return_type_text: return_text(type_text, fn_return_text),
                },
            ),
        ),
        ModuleValueConstructor::Fn { name, arity, field_map, type_text, fn_return_text } => Some(
            Some(
                TargetView {
                    name: name@,
                    arity,
                    fields: fields_view(field_map),
                    return_type_text: return_text(type_text, fn_return_text),
                },
            ),
        ),
        ModuleValueConstructor::Constant => None,
    }
}

/// The number of leading arguments that end before the cursor.
pub open spec fn args_before(s: Seq<CallArg>, b: usize) -> nat
    decreases s.len(),
{
    if s.len() == 0 {
        0
    } else if b > s[0].location.end {
        1 + args_before(s.drop_first(), b)
    } else {
        0
    }
}

/// The innermost call around byte `b` in `e`: its target and the number of
/// arguments before the cursor. Sub-expressions are searched in source order, an
/// argument before the callee; a call whose callee is neither a name nor a
/// qualified function or record answers nothing.
pub open spec fn call_at(e: Expr, b: usize) -> Option<(Option<TargetView>, nat)>
    decreases e,
{
    let loc = expr_location(e);
    if !(loc.start <= b && b < loc.end) {
        None
    } else {
        match e {
            Expr::Call { fun, args, .. } => {
                let inner = call_args_at(args@, b);
                if inner is Some {
                    inner
                } else {
                    let in_fun = call_at(*fun, b);
                    if in_fun is Some {
                        in_fun
                    } else {
                        match *fun {
                            Expr::Var { constructor, .. } => Some(
                                (value_target(constructor), args_before(args@, b)),
                            ),
                            Expr::ModuleSelect { constructor, .. } => match module_target(
                                constructor,
                            ) {
                                Some(t) => Some((t, args_before(args@, b))),
                                None => None,
                            },
                            _ => None,
                        }
                    }
                }
            },
            Expr::Sequence { expressions, .. } => exprs_at(expressions@, b),
            Expr::Pipeline { expressions, .. } => exprs_at(expressions@, b),
            Expr::Fn { body, .. } => call_at(*body, b),
            Expr::Assignment { value, .. } => call_at(*value, b),
            Expr::List { elements, tail, .. } => {
                let r = exprs_at(elements@, b);
                if r is Some {
                    r
                } else {
                    match tail {
                        Some(t) => call_at(*t, b),
                        None => None,
                    }
                }
            },
            Expr::BinOp { left, right, .. } => {
                let r = call_at(*left, b);
                if r is Some {
                    r
                } else {
                    call_at(*right, b)
                }
            },
            Expr::Trace { next, text, .. } => {
                let r = call_at(*next, b);
                if r is Some {
                    r
                } else {
                    call_at(*text, b)
                }
            },
            Expr::When { subject, clauses, .. } => {
                let r = call_at(*subject, b);
                if r is Some {
                    r
                } else {
                    clauses_at(clauses@, b)
                }
            },
            Expr::If { branches, final_else, .. } => {
                let r = branches_at(branches@, b);
                if r is Some {
                    r
                } else {
                    call_at(*final_else, b)
                }
            },
            Expr::RecordAccess { record, .. } => call_at(*record, b),
            Expr::TupleIndex { tuple, .. } => call_at(*tuple, b),
            Expr::RecordUpdate { spread, args, .. } => {
                let r = call_at(*spread, b);
                if r is Some {
                    r
                } else {
                    call_args_at(args@, b)
                }
            },
            Expr::Tuple { elems, .. } => exprs_at(elems@, b),
            Expr::Pair { fst, snd, .. } => {
                let r = call_at(*fst, b);
                if r is Some {
                    r
                } else {
                    call_at(*snd, b)
                }
            },
            Expr::UnOp { value, .. } => call_at(*value, b),
            _ => None,
        }
    }
}

/// The first answer among a list of expressions.
pub open spec fn exprs_at(s: Seq<Expr>, b: usize) -> Option<(Option<TargetView>, nat)>
    decreases s,
{
    if s.len() == 0 {
        None
    } else {
        let r = exprs_at(s.drop_last(), b);
        if r is Some {
            r
        } else {
            call_at(s.last(), b)
        }
    }
}

pub open spec fn call_args_at(s: Seq<CallArg>, b: usize) -> Option<(Option<TargetView>, nat)>
    decreases s,
{
    if s.len() == 0 {
        None
    } else {
        let r = call_args_at(s.drop_last(), b);
        if r is Some {
            r
        } else {
            call_at(s.last().value, b)
        }
    }
}

pub open spec fn clauses_at(s: Seq<Clause>, b: usize) -> Option<(Option<TargetView>, nat)>
    decreases s,
{
    if s.len() == 0 {
        None
    } else {
        let r = clauses_at(s.drop_last(), b);
        if r is Some {
            r
        } else {
            call_at(s.last().body, b)
        }
    }
}

pub open spec fn branches_at(s: Seq<IfBranch>, b: usize) -> Option<(Option<TargetView>, nat)>
    decreases s,
{
    if s.len() == 0 {
        None
    } else {
        let r = branches_at(s.drop_last(), b);
        if r is Some {
            r
        } else {
            let c = call_at(s.last().condition, b);
            if c is Some {
                c
            } else {
                call_at(s.last().body, b)
            }
        }
    }
}

proof fn lemma_call_args_at_none(s: Seq<CallArg>, b: usize)
    requires
        forall|j: int| 0 <= j < s.len() ==> call_at((#[trigger] s[j]).value, b) is None,
    ensures
        call_args_at(s, b) is None,
    decreases s.len(),
{
    if s.len() > 0 {
        let t = s.drop_last();
        assert forall|j: int| 0 <= j < t.len() implies call_at((#[trigger] t[j]).value, b) is None by {
            assert(t[j] == s[j]);
        }
        lemma_call_args_at_none(t, b);
        assert(call_at(s[s.len() - 1].value, b) is None);
    }
}

proof fn lemma_call_args_at_first(s: Seq<CallArg>, k: int, b: usize)
    requires
        0 <= k < s.len(),
        call_at(s[k].value, b) is Some,
        forall|j: int| 0 <= j < k ==> call_at((#[trigger] s[j]).value, b) is None,
    ensures
        call_args_at(s, b) == call_at(s[k].value, b),
    decreases s.len(),
{
    let t = s.drop_last();
    if k == s.len() - 1 {
        assert forall|j: int| 0 <= j < t.len() implies call_at((#[trigger] t[j]).value, b) is None by {
            assert(t[j] == s[j]);
        }
        lemma_call_args_at_none(t, b);
    } else {
        assert(t[k] == s[k]);
        assert forall|j: int| 0 <= j < k implies call_at((#[trigger] t[j]).value, b) is None by {
            assert(t[j] == s[j]);
        }
        lemma_call_args_at_first(t, k, b);
    }
}

/// The innermost call wins: where the cursor lies in a call and one of its arguments
/// holds a call around the cursor (the first such argument, in source order), the
/// answer for the whole call is that argument's answer, not the call around it.
pub proof fn lemma_innermost_call(location: Span, fun: Box<Expr>, args: Vec<CallArg>, k: int, b: usize)
    requires
        location.start <= b < location.end,
        0 <= k < args@.len(),
        call_at(args@[k].value, b) is Some,
        forall|j: int| 0 <= j < k ==> call_at((#[trigger] args@[j]).value, b) is None,
    ensures
        call_at(Expr::Call { location, fun, args }, b) == call_at(args@[k].value, b),
{
    lemma_call_args_at_first(args@, k, b);
}

/// A call whose callee is a name in scope, with no call around the cursor in its
/// arguments, answers with the callee's signature target and the number of
/// arguments that end before the cursor.
pub proof fn lemma_call_of_name(
    location: Span,
    var_location: Span,
    name: String,
    constructor: ValueConstructor,
    args: Vec<CallArg>,
    b: usize,
)
    requires
        location.start <= b < location.end,
        forall|j: int| 0 <= j < args@.len() ==> call_at((#[trigger] args@[j]).value, b) is None,
    ensures
        call_at(
            Expr::Call {
                location,
                fun: Box::new(Expr::Var { location: var_location, name, constructor }),
                args,
            },
            b,
        ) == Some((value_target(constructor), args_before(args@, b))),
{
    lemma_call_args_at_none(args@, b);
    assert(call_at(Expr::Var { location: var_location, name, constructor }, b) is None);
}

/// The answer of a list of found calls, with the exec target viewed.
pub open spec fn found_view(r: Option<(Option<CallTarget>, usize)>) -> Option<
    (Option<TargetView>, nat),
> {
    match r {
        Some((t, n)) => Some((target_view_of(t), n as nat)),
        None => None,
    }
}

/// The printed return type of a type: its return type where it is a function
/// type, else the type itself.
pub open spec fn return_text(type_text: String, fn_return_text: Option<String>) -> Seq<char> {
    match fn_return_text {
        Some(r) => r@,
        None => type_text@,
    }
}

/// The printed return type of a type.
pub fn format_return_type(type_text: &String, fn_return_text: &Option<String>) -> (r: String)
    ensures
        r@ == return_text(*type_text, *fn_return_text),
{
    match fn_return_text {
        Some(ret) => ret.clone(),
        None => type_text.clone(),
    }
}

fn copy_string(s: &String) -> (r: String)
    ensures
        r@ == s@,
{
    s.clone()
}

fn target_of_fields(
    name: &String,
    arity: usize,
    field_map: &Option<FieldMap>,
    type_text: &String,
    fn_return_text: &Option<String>,
) -> (r: CallTarget)
    ensures
        r.view() == (TargetView {
            name: name@,
            arity,
            fields: fields_view(*field_map),
            return_type_text: return_text(*type_text, *fn_return_text),
        }),
{
    let fields = match field_map {
        Some(m) => Some(copy_fields(&m.fields)),
        None => None,
    };
    CallTarget {
        name: copy_string(name),
        arity,
        fields,
        return_type_text: format_return_type(type_text, fn_return_text),
    }
}

fn value_call_target(v: &ValueConstructor) -> (r: Option<CallTarget>)
    ensures
        target_view_of(r) == value_target(*v),
{
    match &v.variant {
        ValueConstructorVariant::ModuleFn { name, arity, field_map } => Some(
            target_of_fields(name, *arity, field_map, &v.type_text, &v.fn_return_text),
        ),
        ValueConstructorVariant::Record { name, arity, field_map, .. } => Some(
            target_of_fields(name, *arity, field_map, &v.type_text, &v.fn_return_text),
        ),
        _ => None,
    }
}

fn module_call_target(m: &ModuleValueConstructor) -> (r: Option<Option<CallTarget>>)
    ensures
        match (r, module_target(*m)) {
            (Some(t), Some(u)) => target_view_of(t) == u,
            (None, None) => true,
            _ => false,
        },
{
    match m {
        ModuleValueConstructor::Record { name, arity, field_map, type_text, fn_return_text } => Some(
            Some(target_of_fields(name, *arity, field_map, type_text, fn_return_text)),
        ),
        ModuleValueConstructor::Fn { name, arity, field_map, type_text, fn_return_text } => Some(
            Some(target_of_fields(name, *arity, field_map, type_text, fn_return_text)),
        ),
        ModuleValueConstructor::Constant => None,
    }
}

/// The active parameter never passes the arguments written: at most as many
/// arguments end before the cursor as the call has. It is the index of the first
/// argument that does not end before the cursor: every argument before it ends
/// before the cursor, and that argument, where there is one, does not.
pub proof fn lemma_args_before_bounded(s: Seq<CallArg>, b: usize)
    ensures
        args_before(s, b) <= s.len(),
        forall|j: int| 0 <= j < args_before(s, b) ==> b > (#[trigger] s[j]).location.end,
        args_before(s, b) < s.len() ==> b <= s[args_before(s, b) as int].location.end,
    decreases s.len(),
{
    if s.len() > 0 {
        let t = s.drop_first();
        lemma_args_before_bounded(t, b);
        if b > s[0].location.end {
            assert forall|j: int| 0 <= j < args_before(s, b) implies b > (#[trigger] s[j]).location.end by {
                if j > 0 {
                    assert(s[j] == t[j - 1]);
                }
            }
            if args_before(s, b) < s.len() {
                assert(s[args_before(s, b) as int] == t[args_before(t, b) as int]);
            }
        }
    }
}

/// The number of leading arguments that end before the cursor.
pub fn count_args_before_cursor(args: &Vec<CallArg>, byte_index: usize) -> (r: usize)
    ensures
        r == args_before(args@, byte_index),
        r <= args@.len(),
{
    proof {
        lemma_args_before_bounded(args@, byte_index);
    }
    let n = args.len();
    let mut count: usize = 0;
    while count < n
        invariant
            n == args@.len(),
            count <= n,
            count + args_before(args@.skip(count as int), byte_index) == args_before(
                args@,
                byte_index,
            ),
        decreases n - count,
    {
        assert(args@.skip(count as int)[0] == args@[count as int]);
        assert(args@.skip(count as int).drop_first() == args@.skip(count + 1));
        if byte_index > args[count].location.end {
            count = count + 1;
        } else {
            return count;
        }
    }
    assert(args@.skip(n as int).len() == 0);
    count
}

/// The innermost call around byte `byte_index` in `expr`.
pub fn find_call_in_expr(expr: &Expr, byte_index: usize) -> (r: Option<(Option<CallTarget>, usize)>)
    ensures
        found_view(r) == call_at(*expr, byte_index),
    decreases expr,
{
    if !expr.location().contains(byte_index) {
        return None;
    }
    match expr {
        Expr::Call { fun, args, .. } => {
            let inner = find_call_in_call_args(args, byte_index);
            if inner.is_some() {
                return inner;
            }
            let in_fun = find_call_in_expr(fun, byte_index);
            if in_fun.is_some() {
                return in_fun;
            }
            let target = match &**fun {
                Expr::Var { constructor, .. } => value_call_target(constructor),
                Expr::ModuleSelect { constructor, .. } => match module_call_target(constructor) {
                    Some(t) => t,
                    None => return None,
                },
                _ => return None,
            };
            let active = count_args_before_cursor(args, byte_index);
            Some((target, active))
        },
        Expr::Sequence { expressions, .. } => find_call_in_exprs(expressions, byte_index),
        Expr::Pipeline { expressions, .. } => find_call_in_exprs(expressions, byte_index),
        Expr::Fn { body, .. } => find_call_in_expr(body, byte_index),
        Expr::Assignment { value, .. } => find_call_in_expr(value, byte_index),
        Expr::List { elements, tail, .. } => {
            let r = find_call_in_exprs(elements, byte_index);
            if r.is_some() {
                return r;
            }
            match tail {
                Some(t) => find_call_in_expr(t, byte_index),
                None => None,
            }
        },
        Expr::BinOp { left, right, .. } => {
            let r = find_call_in_expr(left, byte_index);
            if r.is_some() {
                return r;
            }
            find_call_in_expr(right, byte_index)
        },
        Expr::Trace { next, text, .. } => {
            let r = find_call_in_expr(next, byte_index);
            if r.is_some() {
                return r;
            }
            find_call_in_expr(text, byte_index)
        },
        Expr::When { subject, clauses, .. } => {
            let r = find_call_in_expr(subject, byte_index);
            if r.is_some() {
                return r;
            }
            find_call_in_clauses(clauses, byte_index)
        },
        Expr::If { branches, final_else, .. } => {
            let r = find_call_in_branches(branches, byte_index);
            if r.is_some() {
                return r;
            }
            find_call_in_expr(final_else, byte_index)
        },
        Expr::RecordAccess { record, .. } => find_call_in_expr(record, byte_index),
        Expr::TupleIndex { tuple, .. } => find_call_in_expr(tuple, byte_index),
        Expr::RecordUpdate { spread, args, .. } => {
            let r = find_call_in_expr(spread, byte_index);
            if r.is_some() {
                return r;
            }
            find_call_in_call_args(args, byte_index)
        },
        Expr::Tuple { elems, .. } => find_call_in_exprs(elems, byte_index),
        Expr::Pair { fst, snd, .. } => {
            let r = find_call_in_expr(fst, byte_index);
            if r.is_some() {
                return r;
            }
            find_call_in_expr(snd, byte_index)
        },
        Expr::UnOp { value, .. } => find_call_in_expr(value, byte_index),
        _ => None,
    }
}

fn find_call_in_exprs(s: &Vec<Expr>, byte_index: usize) -> (r: Option<(Option<CallTarget>, usize)>)
    ensures
        found_view(r) == exprs_at(s@, byte_index),
    decreases s,
{
    let n = s.len();
    let mut i: usize = 0;
    while i < n
        invariant
            n == s@.len(),
            i <= n,
            exprs_at(s@.take(i as int), byte_index) is None,
        decreases n - i,
    {
        assert(s@.take(i + 1).drop_last() == s@.take(i as int));
        let r = find_call_in_expr(&s[i], byte_index);
        if r.is_some() {
            proof {
                lemma_exprs_at_prefix(s@, i as int + 1, byte_index);
            }
            return r;
        }
        i = i + 1;
    }
    assert(s@.take(n as int) == s@);
    None
}

/// Once a prefix answers, the whole list answers the same.
proof fn lemma_exprs_at_prefix(s: Seq<Expr>, k: int, b: usize)
    requires
        0 <= k <= s.len(),
        exprs_at(s.take(k), b) is Some,
    ensures
        exprs_at(s, b) == exprs_at(s.take(k), b),
    decreases s.len() - k,
{
    if k < s.len() {
        assert(s.take(k + 1).drop_last() == s.take(k));
        lemma_exprs_at_prefix(s, k + 1, b);
    } else {
        assert(s.take(k) == s);
    }
}

fn find_call_in_call_args(s: &Vec<CallArg>, byte_index: usize) -> (r: Option<
    (Option<CallTarget>, usize),
>)
    ensures
        found_view(r) == call_args_at(s@, byte_index),
    decreases s,
{
    let n = s.len();
    let mut i: usize = 0;
    while i < n
        invariant
            n == s@.len(),
            i <= n,
            call_args_at(s@.take(i as int), byte_index) is None,
        decreases n - i,
    {
        assert(s@.take(i + 1).drop_last() == s@.take(i as int));
        let r = find_call_in_expr(&s[i].value, byte_index);
        if r.is_some() {
            proof {
                lemma_call_args_at_prefix(s@, i as int + 1, byte_index);
            }
            return r;
        }
        i = i + 1;
    }
    assert(s@.take(n as int) == s@);
    None
}

proof fn lemma_call_args_at_prefix(s: Seq<CallArg>, k: int, b: usize)
    requires
        0 <= k <= s.len(),
        call_args_at(s.take(k), b) is Some,
    ensures
        call_args_at(s, b) == call_args_at(s.take(k), b),
    decreases s.len() - k,
{
    if k < s.len() {
        assert(s.take(k + 1).drop_last() == s.take(k));
        lemma_call_args_at_prefix(s, k + 1, b);
    } else {
        assert(s.take(k) == s);
    }
}

fn find_call_in_clauses(s: &Vec<Clause>, byte_index: usize) -> (r: Option<
    (Option<CallTarget>, usize),
>)
    ensures
        found_view(r) == clauses_at(s@, byte_index),
    decreases s,
{
    let n = s.len();
    let mut i: usize = 0;
    while i < n
        invariant
            n == s@.len(),
            i <= n,
            clauses_at(s@.take(i as int), byte_index) is None,
        decreases n - i,
    {
        assert(s@.take(i + 1).drop_last() == s@.take(i as int));
        let r = find_call_in_expr(&s[i].body, byte_index);
        if r.is_some() {
            proof {
                lemma_clauses_at_prefix(s@, i as int + 1, byte_index);
            }
            return r;
        }
        i = i + 1;
    }
    assert(s@.take(n as int) == s@);
    None
}

proof fn lemma_clauses_at_prefix(s: Seq<Clause>, k: int, b: usize)
    requires
        0 <= k <= s.len(),
        clauses_at(s.take(k), b) is Some,
    ensures
        clauses_at(s, b) == clauses_at(s.take(k), b),
    decreases s.len() - k,
{
    if k < s.len() {
        assert(s.take(k + 1).drop_last() == s.take(k));
        lemma_clauses_at_prefix(s, k + 1, b);
    } else {
        assert(s.take(k) == s);
    }
}

fn find_call_in_branches(s: &Vec<IfBranch>, byte_index: usize) -> (r: Option<
    (Option<CallTarget>, usize),
>)
    ensures
        found_view(r) == branches_at(s@, byte_index),
    decreases s,
{
    let n = s.len();
    let mut i: usize = 0;
    while i < n
        invariant
            n == s@.len(),
            i <= n,
            branches_at(s@.take(i as int), byte_index) is None,
        decreases n - i,
    {
        assert(s@.take(i + 1).drop_last() == s@.take(i as int));
        let mut r = find_call_in_expr(&s[i].condition, byte_index);
        if r.is_none() {
            r = find_call_in_expr(&s[i].body, byte_index);
        }
        if r.is_some() {
            proof {
                lemma_branches_at_prefix(s@, i as int + 1, byte_index);
            }
            return r;
        }
        i = i + 1;
    }
    assert(s@.take(n as int) == s@);
    None
}

proof fn lemma_branches_at_prefix(s: Seq<IfBranch>, k: int, b: usize)
    requires
        0 <= k <= s.len(),
        branches_at(s.take(k), b) is Some,
    ensures
        branches_at(s, b) == branches_at(s.take(k), b),
    decreases s.len() - k,
{
    if k < s.len() {
        assert(s.take(k + 1).drop_last() == s.take(k));
        lemma_branches_at_prefix(s, k + 1, b);
    } else {
        assert(s.take(k) == s);
    }
}


pub open spec fn functions_at(s: Seq<Function>, b: usize) -> Option<(Option<TargetView>, nat)>
    decreases s.len(),
{
    if s.len() == 0 {
        None
    } else {
        let r = functions_at(s.drop_last(), b);
        if r is Some {
            r
        } else {
            call_at(s.last().body, b)
        }
    }
}

/// The innermost call around byte `b` in the bodies of a definition: validator
/// handlers before the fallback; data types, aliases and imports have none.
pub open spec fn definition_call_at(d: Definition, b: usize) -> Option<(Option<TargetView>, nat)> {
    match d {
        Definition::Fn(f) => call_at(f.body, b),
        Definition::Test(f) => call_at(f.body, b),
        Definition::Benchmark(f) => call_at(f.body, b),
        Definition::Validator(v) => {
            let r = functions_at(v.handlers@, b);
            if r is Some {
                r
            } else {
                call_at(v.fallback.body, b)
            }
        },
        Definition::ModuleConstant { value, .. } => call_at(value, b),
        _ => None,
    }
}

/// The first definition that answers.
pub open spec fn definitions_call_at(s: Seq<Definition>, b: usize) -> Option<
    (Option<TargetView>, nat),
>
    decreases s.len(),
{
    if s.len() == 0 {
        None
    } else {
        let r = definitions_call_at(s.drop_last(), b);
        if r is Some {
            r
        } else {
            definition_call_at(s.last(), b)
        }
    }
}

fn find_call_in_functions(s: &Vec<Function>, byte_index: usize) -> (r: Option<
    (Option<CallTarget>, usize),
>)
    ensures
        found_view(r) == functions_at(s@, byte_index),
{
    let n = s.len();
    let mut i: usize = 0;
    while i < n
        invariant
            n == s@.len(),
            i <= n,
            functions_at(s@.take(i as int), byte_index) is None,
        decreases n - i,
    {
        assert(s@.take(i + 1).drop_last() == s@.take(i as int));
        let r = find_call_in_expr(&s[i].body, byte_index);
        if r.is_some() {
            proof {
                lemma_functions_at_prefix(s@, i as int + 1, byte_index);
            }
            return r;
        }
        i = i + 1;
    }
    assert(s@.take(n as int) == s@);
    None
}

proof fn lemma_functions_at_prefix(s: Seq<Function>, k: int, b: usize)
    requires
        0 <= k <= s.len(),
        functions_at(s.take(k), b) is Some,
    ensures
        functions_at(s, b) == functions_at(s.take(k), b),
    decreases s.len() - k,
{
    if k < s.len() {
        assert(s.take(k + 1).drop_last() == s.take(k));
        lemma_functions_at_prefix(s, k + 1, b);
    } else {
        assert(s.take(k) == s);
    }
}

/// The innermost call around the cursor in one definition.
pub fn find_call_in_definition(definition: &Definition, byte_index: usize) -> (r: Option<
    (Option<CallTarget>, usize),
>)
    ensures
        found_view(r) == definition_call_at(*definition, byte_index),
{
    match definition {
        Definition::Fn(func) => find_call_in_expr(&func.body, byte_index),
        Definition::Test(test) => find_call_in_expr(&test.body, byte_index),
        Definition::Benchmark(bench) => find_call_in_expr(&bench.body, byte_index),
        Definition::Validator(validator) => {
            let r = find_call_in_functions(&validator.handlers, byte_index);
            if r.is_some() {
                r
            } else {
                find_call_in_expr(&validator.fallback.body, byte_index)
            }
        },
        Definition::ModuleConstant { value, .. } => find_call_in_expr(value, byte_index),
        _ => None,
    }
}

proof fn lemma_definitions_call_at_prefix(s: Seq<Definition>, k: int, b: usize)
    requires
        0 <= k <= s.len(),
        definitions_call_at(s.take(k), b) is Some,
    ensures
        definitions_call_at(s, b) == definitions_call_at(s.take(k), b),
    decreases s.len() - k,
{
    if k < s.len() {
        assert(s.take(k + 1).drop_last() == s.take(k));
        lemma_definitions_call_at_prefix(s, k + 1, b);
    } else {
        assert(s.take(k) == s);
    }
}

/// The innermost call around the cursor in the first definition that has one.
pub fn find_enclosing_call_at(definitions: &Vec<Definition>, byte_index: usize) -> (r: Option<
    (Option<CallTarget>, usize),
>)
    ensures
        found_view(r) == definitions_call_at(definitions@, byte_index),
{
    let s = definitions;
    let n = s.len();
    let mut i: usize = 0;
    while i < n
        invariant
            n == s@.len(),
            i <= n,
            definitions_call_at(s@.take(i as int), byte_index) is None,
            s@ == definitions@,
        decreases n - i,
    {
        assert(s@.take(i + 1).drop_last() == s@.take(i as int));
        let r = find_call_in_definition(&s[i], byte_index);
        if r.is_some() {
            proof {
                assert(s@.take(i + 1).last() == s@[i as int]);
                assert(found_view(r) == definitions_call_at(s@.take(i + 1), byte_index));
                lemma_definitions_call_at_prefix(s@, i as int + 1, byte_index);
            }
            return r;
        }
        i = i + 1;
    }
    assert(s@.take(n as int) == s@);
    None
}

/// A signature: its label, the labels of its parameters and the active parameter.
pub struct SignatureInformation {
    pub label: String,
    pub parameters: Vec<String>,
    pub active_parameter: u32,
}

/// Signature help: the signatures offered (always one here), which is active, and
/// which parameter is active.
pub struct SignatureHelp {
    pub signatures: Vec<SignatureInformation>,
    pub active_signature: u32,
    pub active_parameter: u32,
}

pub open spec fn field_labels(fs: Seq<Field>) -> Seq<Seq<char>> {
    fs.map_values(|f: Field| f.label@)
}

/// `arg0`, `arg1`, ... for `n` unlabelled parameters.
pub open spec fn arg_names(n: nat) -> Seq<Seq<char>> {
    Seq::new(n, |i: int| "arg"@ + decimal(i as nat))
}

/// The parameter labels of a target: its labelled arguments by position where it
/// has a field map, else `arg0`... for each of its arguments.
pub open spec fn parameter_labels(t: TargetView) -> Seq<Seq<char>> {
    match t.fields {
        Some(fs) => field_labels(sort_fields(fs)),
        None => if t.arity > 0 {
            arg_names(t.arity as nat)
        } else {
            Seq::empty()
        },
    }
}

/// The label of a signature: `type: T` for a callee without arguments, else
/// `fn name(p1, p2, ...)`.
pub open spec fn signature_label(t: TargetView) -> Seq<char> {
    if t.arity == 0 {
        "type: "@ + t.return_type_text
    } else {
        "fn "@ + t.name + "("@ + join_seq(parameter_labels(t), ", "@) + ")"@
    }
}

pub open spec fn signature_matches(sig: SignatureInformation, t: TargetView, active: nat) -> bool {
    &&& sig.label@ == signature_label(t)
    &&& views(sig.parameters@) == parameter_labels(t)
    &&& sig.active_parameter == active as u32
}

fn labels_of(fields: &Vec<Field>) -> (r: Vec<String>)
    ensures
        views(r@) == field_labels(fields@),
{
    let mut out: Vec<String> = Vec::new();
    let n = fields.len();
    let mut i: usize = 0;
    while i < n
        invariant
            n == fields@.len(),
            i <= n,
            views(out@) == field_labels(fields@.take(i as int)),
        decreases n - i,
    {
        let ghost prev = out@;
        out.push(fields[i].label.clone());
        assert(out@ == prev.push(fields@[i as int].label));
        assert(views(out@) =~= views(prev).push(fields@[i as int].label@));
        assert(fields@.take(i + 1) == fields@.take(i as int).push(fields@[i as int]));
        assert(field_labels(fields@.take(i + 1)) =~= field_labels(fields@.take(i as int)).push(
            fields@[i as int].label@,
        ));
        i = i + 1;
    }
    assert(fields@.take(n as int) == fields@);
    out
}

fn arg_name_list(arity: usize) -> (r: Vec<String>)
    ensures
        views(r@) == arg_names(arity as nat),
{
    let mut out: Vec<String> = Vec::new();
    let mut i: usize = 0;
    while i < arity
        invariant
            i <= arity,
            views(out@) == arg_names(i as nat),
        decreases arity - i,
    {
        let mut name = String::new();
        name.append("arg");
        push_decimal(&mut name, i);
        let ghost prev = out@;
        let ghost nv = name@;
        out.push(name);
        assert(out@[out@.len() - 1]@ == nv);
        assert(views(out@) =~= views(prev).push(nv));
        assert(arg_names((i + 1) as nat) =~= arg_names(i as nat).push("arg"@ + decimal(i as nat)));
        i = i + 1;
    }
    out
}

/// The parameters of a target.
pub fn build_parameters(fields: &Option<Vec<Field>>, arity: usize) -> (r: Vec<String>)
    ensures
        views(r@) == parameter_labels(
            TargetView {
                name: Seq::empty(),
                arity,
                fields: match *fields {
                    Some(v) => Some(v@),
                    None => None,
                },
                return_type_text: Seq::empty(),
            },
        ),
{
    match fields {
        Some(fs) => {
            let sorted = sorted_fields(&FieldMap { fields: copy_fields(fs) });
            labels_of(&sorted)
        },
        None => {
            if arity > 0 {
                arg_name_list(arity)
            } else {
                Vec::new()
            }
        },
    }
}

/// The signature of a call target, with `active_param` as the active parameter.
pub fn build_fn_signature(target: &CallTarget, active_param: usize) -> (r: SignatureInformation)
    ensures
        signature_matches(r, target.view(), active_param as nat),
{
    let parameters = build_parameters(&target.fields, target.arity);
    let param_string = join(&parameters, ", ");
    let mut label = String::new();
    if target.arity == 0 {
        label.append("type: ");
        label.append(target.return_type_text.as_str());
    } else {
        label.append("fn ");
        label.append(target.name.as_str());
        label.append("(");
        label.append(param_string.as_str());
        label.append(")");
    }
    proof {
        assert(parameter_labels(target.view()) == views(parameters@));
    }
    SignatureInformation { label, parameters, active_parameter: active_param as u32 }
}

/// The signature of a found call, where its callee is a function or record.
pub fn build_signature(target: &Option<CallTarget>, active_param: usize) -> (r: Option<
    SignatureInformation,
>)
    ensures
        match target_view_of(*target) {
            Some(t) => r matches Some(sig) && signature_matches(sig, t, active_param as nat),
            None => r is None,
        },
{
    match target {
        Some(t) => Some(build_fn_signature(t, active_param)),
        None => None,
    }
}

/// Whether the byte offset of a cursor position fits the machine's integers.
pub open spec fn position_fits(bytes: Seq<u8>, line: u32, character: u32) -> bool {
    let s = line_starts_of(bytes);
    (line as int) < s.len() ==> s[line as int] + character <= usize::MAX
}

/// Whether the byte offset of the cursor position fits the machine's integers, which
/// `signature_help` needs.
pub fn position_fits_in(module: &CheckedModule, line: u32, character: u32) -> (r: bool)
    ensures
        r == position_fits(encode_utf8(module.code@), line, character),
{
    let line_numbers = LineNumbers::new(module.code.as_str());
    line_numbers.byte_index_fits(line as usize, character as usize)
}

/// The signature help at a cursor position of a module: the innermost call around
/// the cursor's byte offset, its signature, and the number of arguments that end
/// before the cursor as the active parameter.
pub fn signature_help(module: Option<&CheckedModule>, line: u32, character: u32) -> (r: Option<
    SignatureHelp,
>)
    requires
        module matches Some(m) ==> position_fits(encode_utf8(m.code@), line, character),
    ensures
        match module {
            None => r is None,
            Some(m) => {
                let b = byte_index_of(encode_utf8(m.code@), line as usize, character as usize);
                match definitions_call_at(m.definitions@, b as usize) {
                    Some((Some(t), active)) => r matches Some(h) && h.signatures@.len() == 1
                        && signature_matches(h.signatures@[0], t, active) && h.active_signature
                        == 0 && h.active_parameter == active as u32,
                    _ => r is None,
                }
            },
        },
{
    let module = match module {
        Some(m) => m,
        None => return None,
    };
    let line_numbers = LineNumbers::new(module.code.as_str());
    let byte_index = line_numbers.byte_index(line as usize, character as usize);
    let (target, active_param) = match find_enclosing_call_at(&module.definitions, byte_index) {
        Some(found) => found,
        None => return None,
    };
    let signature = match build_signature(&target, active_param) {
        Some(s) => s,
        None => return None,
    };
    let signatures = vec![signature];
    Some(SignatureHelp { signatures, active_signature: 0, active_parameter: active_param as u32 })
}

} // verus!
