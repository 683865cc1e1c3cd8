//! Completion: module paths after `use`, values and modules in expressions,
//! constructors in patterns, types in annotations and labels in arguments.
use vstd::prelude::*;
use vstd::string::StringSliceAdditionalSpecFns;
use vstd::utf8::encode_utf8;
use crate::ast::{
    Definition, Field, FieldMap, Located, ScopeType, ScopeValue, TypeConstructors, TypeInfo,
    ValueConstructor, ValueConstructorVariant, type_info_wf,
};
use crate::server::{LspProject, Server};
use crate::fields::{lemma_sort_fields_keeps, sort_fields, sorted_fields};
use crate::text::{
    lemma_bytes_lt_asymmetric, lemma_bytes_lt_total, lemma_bytes_lt_transitive, bytes_lt, decimal, is_prefix, join, join_seq, push_decimal, starts_with, str_equal, str_lt,
    text_lt, views,
};

verus! {

broadcast use vstd::seq_lib::group_seq_properties;

/// Whether one of `st_arg`, `nd_arg`, `rd_arg` or `th_arg` starts at byte `i`.
pub open spec fn ordinal_suffix_at(bytes: Seq<u8>, i: int) -> bool {
    &&& 0 <= i && i + 6 <= bytes.len()
    &&& ((bytes[i] == 115u8 && bytes[i + 1] == 116u8) || (bytes[i] == 110u8 && bytes[i + 1] == 100u8)
        || (bytes[i] == 114u8 && bytes[i + 1] == 100u8) || (bytes[i] == 116u8 && bytes[i + 1]
        == 104u8))
    &&& bytes[i + 2] == 95u8 && bytes[i + 3] == 97u8 && bytes[i + 4] == 114u8 && bytes[i + 5] == 103u8
}

/// Whether a name looks like a generated ordinal argument name such as `1st_arg`:
/// its first byte is an ASCII digit and it contains `st_arg`, `nd_arg`, `rd_arg` or
/// `th_arg`.
#[verifier::opaque]
pub open spec fn ordinal_argument_name(bytes: Seq<u8>) -> bool {
    &&& bytes.len() > 0
    &&& 48 <= bytes[0] <= 57
    &&& exists|i: int| ordinal_suffix_at(bytes, i)
}

fn ordinal_suffix_in(b: &[u8], i: usize) -> (r: bool)
    requires
        i + 6 <= b@.len(),
    ensures
        r == ordinal_suffix_at(b@, i as int),
{
    let (c0, c1) = (b[i], b[i + 1]);
    ((c0 == 115 && c1 == 116) || (c0 == 110 && c1 == 100) || (c0 == 114 && c1 == 100) || (c0 == 116
        && c1 == 104)) && b[i + 2] == 95 && b[i + 3] == 97 && b[i + 4] == 114 && b[i + 5] == 103
}

pub fn is_ordinal_argument_name(name: &str) -> (r: bool)
    ensures
        r == ordinal_argument_name(name.spec_bytes()),
{
    reveal(ordinal_argument_name);
    let b = name.as_bytes();
    if b.len() == 0 {
        return false;
    }
    if !(b[0] >= 48 && b[0] <= 57) {
        return false;
    }
    if b.len() < 6 {
        assert(forall|i: int| !#[trigger] ordinal_suffix_at(b@, i));
        return false;
    }
    let last = b.len() - 6;
    let mut i: usize = 0;
    loop
        invariant
            last + 6 == b@.len(),
            b@ == name.spec_bytes(),
            48 <= b@[0] <= 57,
            i <= last,
            forall|j: int| 0 <= j < i ==> !#[trigger] ordinal_suffix_at(b@, j),
        decreases last - i,
    {
        if ordinal_suffix_in(b, i) {
            assert(ordinal_suffix_at(b@, i as int));
            proof {
                reveal(ordinal_argument_name);
            }
            return true;
        }
        if i == last {
            assert(forall|j: int| !#[trigger] ordinal_suffix_at(b@, j));
            proof {
                reveal(ordinal_argument_name);
            }
            return false;
        }
        i = i + 1;
    }
}

/// `k` empty slots.
pub open spec fn gaps(k: int) -> Seq<Option<Seq<char>>> {
    Seq::new(if k > 0 { k as nat } else { 0 }, |i: int| None::<Seq<char>>)
}

/// The argument slots of a call written out from fields ordered by position: empty
/// slots up to each field's position, the field's label, and empty slots up to the
/// arity at the end. `filled` is the number of slots written so far.
pub open spec fn slots(sorted: Seq<Field>, filled: int, arity: int) -> Seq<Option<Seq<char>>>
    decreases sorted.len(),
{
    if sorted.len() == 0 {
        gaps(arity - filled)
    } else {
        let f = sorted[0];
        let next = if f.index > filled { f.index as int } else { filled };
        gaps(f.index - filled) + seq![Some(f.label@)] + slots(sorted.drop_first(), next + 1, arity)
    }
}

/// The length of the slots written from `filled` on.
proof fn lemma_slots_len(sorted: Seq<Field>, filled: int, arity: int)
    requires
        filled >= 0,
    ensures
        filled + slots(sorted, filled, arity).len() >= arity,
    decreases sorted.len(),
{
    if sorted.len() > 0 {
        let f = sorted[0];
        let next = if f.index > filled { f.index as int } else { filled };
        lemma_slots_len(sorted.drop_first(), next + 1, arity);
    }
}

/// A slot as an argument: its label, or `_` for an empty one.
pub open spec fn slot_arg(s: Option<Seq<char>>) -> Seq<char> {
    match s {
        Some(l) => l,
        None => "_"@,
    }
}

/// The arguments `a, _, c` of a signature with labelled fields.
pub open spec fn labeled_args(fields: Seq<Field>, arity: usize) -> Seq<char> {
    join_seq(slots(sort_fields(fields), 0, arity as int).map_values(|s: Option<Seq<char>>| slot_arg(s)), ", "@)
}

/// `n` placeholder arguments `_`.
pub open spec fn underscores(n: nat) -> Seq<Seq<char>> {
    Seq::new(n, |i: int| "_"@)
}

/// The snippet placeholder `${n:_}`.
pub open spec fn placeholder(n: nat) -> Seq<char> {
    "${"@ + decimal(n) + ":_}"@
}

/// A slot as a snippet part, numbered from 1: `label: ${n:_}` or `${n:_}`.
pub open spec fn slot_part(i: int, s: Option<Seq<char>>) -> Seq<char> {
    match s {
        Some(l) => l + ": "@ + placeholder((i + 1) as nat),
        None => placeholder((i + 1) as nat),
    }
}

/// Whether every field position plus the number of fields fits below the largest
/// machine integer, so that counting written slots cannot overflow.
pub open spec fn indices_bounded(fields: Seq<Field>) -> bool {
    forall|i: int| 0 <= i < fields.len() ==> #[trigger] fields[i].index + fields.len() < usize::MAX
}

/// Sorting keeps every position bound.
proof fn lemma_sorted_bounded(fields: Seq<Field>)
    requires
        indices_bounded(fields),
    ensures
        indices_bounded(sort_fields(fields)),
{
    lemma_sort_fields_keeps(fields, fields[0]);
    assert forall|i: int| 0 <= i < sort_fields(fields).len() implies #[trigger] sort_fields(fields)[i].index + sort_fields(fields).len() < usize::MAX by {
        let x = sort_fields(fields)[i];
        lemma_sort_fields_keeps(fields, x);
        let j = choose|j: int| 0 <= j < fields.len() && fields[j] == x;
        assert(fields[j].index + fields.len() < usize::MAX);
    }
}

proof fn lemma_gaps_push(k: int)
    requires
        k >= 0,
    ensures
        gaps(k + 1) == gaps(k).push(None::<Seq<char>>),
{
    assert(gaps(k + 1) =~= gaps(k).push(None::<Seq<char>>));
}

fn push_gaps(out: &mut Vec<Option<String>>, filled: &mut usize, target: usize)
    ensures
        *final(filled) == if target > *old(filled) { target } else { *old(filled) },
        opt_views(final(out)@) == opt_views(old(out)@) + gaps(target - *old(filled)),
{
    let ghost start = opt_views(out@);
    let ghost f0 = *filled;
    while *filled < target
        invariant
            f0 <= *filled,
            *filled <= target || *filled == f0,
            opt_views(out@) == start + gaps(*filled - f0),
        decreases target - *filled,
    {
        let ghost prev = out@;
        out.push(None);
        proof {
            lemma_gaps_push(*filled - f0);
            assert(opt_views(out@) =~= opt_views(prev).push(None::<Seq<char>>));
        }
        *filled = *filled + 1;
    }
    assert(gaps(target - f0) =~= gaps(*filled - f0));
}

/// The character views of optional strings.
pub open spec fn opt_views(s: Seq<Option<String>>) -> Seq<Option<Seq<char>>> {
    s.map_values(|o: Option<String>| match o {
        Some(x) => Some(x@),
        None => None,
    })
}

/// The argument slots for `arity` arguments with labelled fields.
pub fn argument_slots(field_map: &FieldMap, arity: usize) -> (r: Vec<Option<String>>)
    requires
        indices_bounded(field_map.fields@),
    ensures
        opt_views(r@) == slots(sort_fields(field_map.fields@), 0, arity as int),
{
    let entries = sorted_fields(field_map);
    proof {
        if field_map.fields@.len() > 0 {
            lemma_sorted_bounded(field_map.fields@);
        }
    }
    let ghost all = entries@;
    let ghost m: int = usize::MAX - all.len() - 1;
    let mut out: Vec<Option<String>> = Vec::new();
    let mut filled: usize = 0;
    let n = entries.len();
    let mut k: usize = 0;
    while k < n
        invariant
            n == all.len(),
            all == entries@,
            indices_bounded(all),
            m == usize::MAX - all.len() - 1,
            k <= n,
            filled <= k + m + 1,
            opt_views(out@) + slots(all.skip(k as int), filled as int, arity as int) == slots(
                all,
                0,
                arity as int,
            ),
        decreases n - k,
    {
        let idx = entries[k].index;
        let ghost rest = all.skip(k as int);
        let ghost f0 = filled as int;
        let ghost v0 = opt_views(out@);
        assert(rest[0] == all[k as int]);
        assert(rest.drop_first() == all.skip(k + 1));
        assert(all[k as int].index + all.len() < usize::MAX);
        push_gaps(&mut out, &mut filled, idx);
        let ghost v1 = opt_views(out@);
        out.push(Some(entries[k].label.clone()));
        let ghost v2 = opt_views(out@);
        assert(v2 =~= v1.push(Some(all[k as int].label@)));
        filled = filled + 1;
        k = k + 1;
        proof {
            let tail = slots(all.skip(k as int), filled as int, arity as int);
            assert(slots(rest, f0, arity as int) == gaps(idx - f0) + seq![Some(all[k - 1].label@)]
                + tail);
            assert(v2 + tail =~= v0 + (gaps(idx - f0) + seq![Some(all[k - 1].label@)] + tail));
        }
    }
    push_gaps(&mut out, &mut filled, arity);
    assert(all.skip(n as int).len() == 0);
    assert(opt_views(out@) =~= slots(all, 0, arity as int));
    out
}


fn owned(s: &str) -> (r: String)
    ensures
        r@ == s@,
{
    s.to_owned()
}

/// Joins the slots as arguments: labels, and `_` for empty slots.
pub fn format_labeled_args(arity: usize, field_map: &FieldMap) -> (r: String)
    requires
        indices_bounded(field_map.fields@),
    ensures
        r@ == labeled_args(field_map.fields@, arity),
{
    let slots_v = argument_slots(field_map, arity);
    let ghost sl = opt_views(slots_v@);
    let mut args: Vec<String> = Vec::new();
    let n = slots_v.len();
    let mut i: usize = 0;
    while i < n
        invariant
            n == slots_v@.len(),
            sl == opt_views(slots_v@),
            i <= n,
            views(args@) == sl.take(i as int).map_values(|s: Option<Seq<char>>| slot_arg(s)),
        decreases n - i,
    {
        let a = match &slots_v[i] {
            Some(l) => l.clone(),
            None => owned("_"),
        };
        let ghost prev = args@;
        args.push(a);
        assert(views(args@) =~= views(prev).push(slot_arg(sl[i as int])));
        i = i + 1;
        assert(sl.take(i as int).map_values(|s: Option<Seq<char>>| slot_arg(s)) =~= sl.take(
            i - 1,
        ).map_values(|s: Option<Seq<char>>| slot_arg(s)).push(slot_arg(sl[i - 1])));
    }
    assert(sl.take(n as int) == sl);
    join(&args, ", ")
}

/// `n` placeholders `_` joined.
fn underscore_list(n: usize) -> (r: Vec<String>)
    ensures
        views(r@) == underscores(n as nat),
{
    let mut out: Vec<String> = Vec::new();
    let mut i: usize = 0;
    while i < n
        invariant
            i <= n,
            views(out@) == underscores(i as nat),
        decreases n - i,
    {
        let ghost prev = out@;
        out.push(owned("_"));
        assert(views(out@) =~= views(prev).push("_"@));
        i = i + 1;
        assert(underscores(i as nat) =~= underscores((i - 1) as nat).push("_"@));
    }
    out
}

pub open spec fn fields_view(fm: Option<FieldMap>) -> Option<Seq<Field>> {
    match fm {
        Some(m) => Some(m.fields@),
        None => None,
    }
}

/// The arguments of a signature: labelled where there are labelled fields, else
/// `_` for each argument.
pub open spec fn signature_args(arity: usize, fields: Option<Seq<Field>>) -> Seq<char> {
    match fields {
        Some(fs) => if fs.len() > 0 {
            labeled_args(fs, arity)
        } else {
            join_seq(underscores(arity as nat), ", "@)
        },
        None => join_seq(underscores(arity as nat), ", "@),
    }
}

/// `name(args)`.
pub open spec fn function_signature(name: Seq<char>, arity: usize, fields: Option<Seq<Field>>) -> Seq<
    char,
> {
    name + "("@ + signature_args(arity, fields) + ")"@
}

/// A constructor's signature: its bare name where it takes no arguments.
pub open spec fn constructor_signature(
    name: Seq<char>,
    arity: usize,
    fields: Option<Seq<Field>>,
) -> Seq<char> {
    if arity == 0 {
        name
    } else {
        function_signature(name, arity, fields)
    }
}

pub open spec fn field_map_bounded(fm: Option<FieldMap>) -> bool {
    match fm {
        Some(m) => indices_bounded(m.fields@),
        None => true,
    }
}

fn format_args(arity: usize, field_map: &Option<FieldMap>) -> (r: String)
    requires
        field_map_bounded(*field_map),
    ensures
        r@ == signature_args(arity, fields_view(*field_map)),
{
    match field_map {
        Some(fm) => {
            if fm.fields.len() > 0 {
                return format_labeled_args(arity, fm);
            }
        },
        None => {},
    }
    join(&underscore_list(arity), ", ")
}

/// `name(args)` for display.
pub fn format_function_signature(name: &str, arity: usize, field_map: &Option<FieldMap>) -> (r: String)
    requires
        field_map_bounded(*field_map),
    ensures
        r@ == function_signature(name@, arity, fields_view(*field_map)),
{
    let args = format_args(arity, field_map);
    let mut s = owned(name);
    s.append("(");
    s.append(args.as_str());
    s.append(")");
    s
}

/// A constructor's signature for display.
pub fn format_constructor_signature(name: &str, arity: usize, field_map: &Option<FieldMap>) -> (r:
    String)
    requires
        field_map_bounded(*field_map),
    ensures
        r@ == constructor_signature(name@, arity, fields_view(*field_map)),
{
    if arity == 0 {
        return owned(name);
    }
    format_function_signature(name, arity, field_map)
}

/// The snippet parts of the slots, numbered from 1.
pub open spec fn slot_parts(sl: Seq<Option<Seq<char>>>) -> Seq<Seq<char>> {
    Seq::new(sl.len(), |i: int| slot_part(i, sl[i]))
}

/// The placeholders `${1:_}`..`${n:_}`.
pub open spec fn placeholders(n: nat) -> Seq<Seq<char>> {
    Seq::new(n, |i: int| placeholder((i + 1) as nat))
}

/// `name(parts)` of a snippet.
pub open spec fn call_snippet(name: Seq<char>, parts: Seq<Seq<char>>) -> Seq<char> {
    name + "("@ + join_seq(parts, ", "@) + ")"@
}

/// The snippet inserted for a value: functions and constructors with arguments get
/// one placeholder per argument (labelled where there are labelled fields); other
/// values insert their name.
pub open spec fn insert_text(name: Seq<char>, v: ValueConstructorVariant) -> Seq<char> {
    match v {
        ValueConstructorVariant::ModuleFn { arity, field_map, .. } => fn_insert_text(name, arity, field_map),
        ValueConstructorVariant::Record { arity, field_map, .. } => fn_insert_text(name, arity, field_map),
        _ => name,
    }
}

pub open spec fn fn_insert_text(name: Seq<char>, arity: usize, field_map: Option<FieldMap>) -> Seq<char> {
    if arity > 0 && field_map is Some && field_map->Some_0.fields@.len() > 0 {
        call_snippet(name, slot_parts(slots(sort_fields(field_map->Some_0.fields@), 0, arity as int)))
    } else if arity > 0 {
        call_snippet(name, placeholders(arity as nat))
    } else {
        name
    }
}

fn format_placeholder(n: usize) -> (r: String)
    ensures
        r@ == placeholder(n as nat),
{
    let mut s = owned("${");
    push_decimal(&mut s, n);
    s.append(":_}");
    s
}

fn snippet_of(name: &str, parts: &Vec<String>) -> (r: String)
    ensures
        r@ == call_snippet(name@, views(parts@)),
{
    let mut s = owned(name);
    s.append("(");
    let joined = join(parts, ", ");
    s.append(joined.as_str());
    s.append(")");
    s
}

fn fn_snippet(name: &str, arity: usize, field_map: &Option<FieldMap>) -> (r: String)
    requires
        field_map_bounded(*field_map),
    ensures
        r@ == fn_insert_text(name@, arity, *field_map),
{
    if arity > 0 {
        match field_map {
            Some(fm) => {
                if fm.fields.len() > 0 {
                    let slots_v = argument_slots(fm, arity);
                    let ghost sl = opt_views(slots_v@);
                    let mut parts: Vec<String> = Vec::new();
                    let n = slots_v.len();
                    let mut i: usize = 0;
                    while i < n
                        invariant
                            n == slots_v@.len(),
                            sl == opt_views(slots_v@),
                            i <= n,
                            views(parts@) == slot_parts(sl).take(i as int),
                        decreases n - i,
                    {
                        let p = match &slots_v[i] {
                            Some(l) => {
                                let mut t = l.clone();
                                t.append(": ");
                                let ph = format_placeholder(i + 1);
                                t.append(ph.as_str());
                                t
                            },
                            None => format_placeholder(i + 1),
                        };
                        let ghost prev = parts@;
                        parts.push(p);
                        assert(views(parts@) =~= views(prev).push(slot_part(i as int, sl[i as int])));
                        i = i + 1;
                        assert(slot_parts(sl).take(i as int) =~= slot_parts(sl).take(i - 1).push(
                            slot_part(i - 1, sl[i - 1]),
                        ));
                    }
                    assert(slot_parts(sl).take(n as int) =~= slot_parts(sl));
                    return snippet_of(name, &parts);
                }
            },
            None => {},
        }
        let mut parts: Vec<String> = Vec::new();
        let mut i: usize = 0;
        while i < arity
            invariant
                i <= arity,
                views(parts@) == placeholders(i as nat),
            decreases arity - i,
        {
            let ghost prev = parts@;
            parts.push(format_placeholder(i + 1));
            assert(views(parts@) =~= views(prev).push(placeholder((i + 1) as nat)));
            i = i + 1;
            assert(placeholders(i as nat) =~= placeholders((i - 1) as nat).push(
                placeholder(i as nat),
            ));
        }
        return snippet_of(name, &parts);
    }
    owned(name)
}

pub open spec fn variant_bounded(v: ValueConstructorVariant) -> bool {
    match v {
        ValueConstructorVariant::ModuleFn { field_map, .. } => field_map_bounded(field_map),
        ValueConstructorVariant::Record { field_map, .. } => field_map_bounded(field_map),
        _ => true,
    }
}

/// The snippet inserted when a value is chosen.
pub fn format_insert_text(name: &str, variant: &ValueConstructorVariant) -> (r: String)
    requires
        variant_bounded(*variant),
    ensures
        r@ == insert_text(name@, *variant),
{
    match variant {
        ValueConstructorVariant::ModuleFn { arity, field_map, .. } => fn_snippet(name, *arity, field_map),
        ValueConstructorVariant::Record { arity, field_map, .. } => fn_snippet(name, *arity, field_map),
        _ => owned(name),
    }
}


/// The kind of a completion item.
#[derive(Clone, Copy, Debug, PartialEq, Eq)]
pub enum CompletionItemKind {
    Module,
    Class,
    Property,
    Function,
    Constant,
    Constructor,
    Variable,
}

/// A completion item: the label shown, its kind, a detail line, Markdown
/// documentation, the text inserted and whether that text is a snippet.
#[derive(Debug, PartialEq, Eq)]
pub struct CompletionItem {
    pub label: String,
    pub kind: CompletionItemKind,
    pub detail: Option<String>,
    pub documentation: Option<String>,
    pub insert_text: Option<String>,
    pub snippet: bool,
}

/// The plain content of a completion item.
pub struct ItemView {
    pub label: Seq<char>,
    pub kind: CompletionItemKind,
    pub detail: Option<Seq<char>>,
    pub documentation: Option<Seq<char>>,
    pub insert_text: Option<Seq<char>>,
    pub snippet: bool,
}

pub open spec fn opt_view(o: Option<String>) -> Option<Seq<char>> {
    match o {
        Some(s) => Some(s@),
        None => None,
    }
}

impl CompletionItem {
    pub open spec fn view(&self) -> ItemView {
        ItemView {
            label: self.label@,
            kind: self.kind,
            detail: opt_view(self.detail),
            documentation: opt_view(self.documentation),
            insert_text: opt_view(self.insert_text),
            snippet: self.snippet,
        }
    }
}

pub open spec fn item_views(s: Seq<CompletionItem>) -> Seq<ItemView> {
    s.map_values(|i: CompletionItem| i.view())
}

/// A type shown as an Aiken code block in Markdown.
pub open spec fn markdown(type_text: Seq<char>) -> Seq<char> {
    "```aiken\n"@ + type_text + "\n```"@
}

/// The detail line and kind of a value: `fn sig` for a function known here under
/// another name, else its signature; `const name` for a constant under another name,
/// else `const`; a constructor's signature, with `(variant of n)` where its type has
/// more than one constructor; nothing for a local variable.
pub open spec fn value_detail(name: Seq<char>, v: ValueConstructorVariant) -> (Option<Seq<char>>, CompletionItemKind) {
    match v {
        ValueConstructorVariant::LocalVariable => (None, CompletionItemKind::Variable),
        ValueConstructorVariant::ModuleFn { name: fn_name, arity, field_map } => {
            let sig = function_signature(name, arity, fields_view(field_map));
            (Some(if fn_name@ != name { "fn "@ + sig } else { sig }), CompletionItemKind::Function)
        },
        ValueConstructorVariant::ModuleConstant { name: const_name } => (
            Some(if const_name@ != name { "const "@ + name } else { "const"@ }),
            CompletionItemKind::Constant,
        ),
        ValueConstructorVariant::Record { arity, field_map, constructors_count, .. } => {
            let sig = constructor_signature(name, arity, fields_view(field_map));
            (
                Some(if constructors_count > 1 {
                    sig + " (variant of "@ + decimal(constructors_count as nat) + ")"@
                } else {
                    sig
                }),
                CompletionItemKind::Constructor,
            )
        },
    }
}

/// The completion item of a value in scope.
pub open spec fn value_item(name: Seq<char>, c: ValueConstructor) -> ItemView {
    let (detail, kind) = value_detail(name, c.variant);
    ItemView {
        label: name,
        kind,
        detail,
        documentation: Some(markdown(c.type_text@)),
        insert_text: Some(insert_text(name, c.variant)),
        snippet: true,
    }
}

fn markdown_of(type_text: &String) -> (r: String)
    ensures
        r@ == markdown(type_text@),
{
    let mut s = owned("```aiken\n");
    s.append(type_text.as_str());
    s.append("\n```");
    s
}

/// The completion item of a value in scope named `name`.
pub fn value_to_completion_item(name: &str, constructor: &ValueConstructor) -> (r: CompletionItem)
    requires
        variant_bounded(constructor.variant),
    ensures
        r.view() == value_item(name@, *constructor),
{
    let (kind, detail) = match &constructor.variant {
        ValueConstructorVariant::LocalVariable => (CompletionItemKind::Variable, None),
        ValueConstructorVariant::ModuleFn { arity, field_map, name: fn_name } => {
            let sig = format_function_signature(name, *arity, field_map);
            let detail = if !str_equal(fn_name.as_str(), name) {
                let mut d = owned("fn ");
                d.append(sig.as_str());
                Some(d)
            } else {
                Some(sig)
            };
            (CompletionItemKind::Function, detail)
        },
        ValueConstructorVariant::ModuleConstant { name: const_name } => {
            let detail = if !str_equal(const_name.as_str(), name) {
                let mut d = owned("const ");
                d.append(name);
                Some(d)
            } else {
                Some(owned("const"))
            };
            (CompletionItemKind::Constant, detail)
        },
        ValueConstructorVariant::Record { arity, field_map, constructors_count, .. } => {
            let sig = format_constructor_signature(name, *arity, field_map);
            let detail_text = if *constructors_count > 1 {
                let mut d = sig;
                d.append(" (variant of ");
                push_decimal(&mut d, *constructors_count as usize);
                d.append(")");
                d
            } else {
                sig
            };
            (CompletionItemKind::Constructor, Some(detail_text))
        },
    };
    let documentation = Some(markdown_of(&constructor.type_text));
    let insert = format_insert_text(name, &constructor.variant);
    CompletionItem {
        label: owned(name),
        kind,
        detail,
        documentation,
        insert_text: Some(insert),
        snippet: true,
    }
}


/// Inserts an item after the last item whose label does not order after its own.
pub open spec fn insert_item(s: Seq<ItemView>, x: ItemView) -> Seq<ItemView>
    decreases s.len(),
{
    if s.len() == 0 {
        seq![x]
    } else if text_lt(x.label, s.last().label) {
        insert_item(s.drop_last(), x).push(s.last())
    } else {
        s.push(x)
    }
}

/// Items ordered by label as std orders strings; items with equal labels keep their
/// order.
pub open spec fn sort_items(s: Seq<ItemView>) -> Seq<ItemView>
    decreases s.len(),
{
    if s.len() == 0 {
        s
    } else {
        insert_item(sort_items(s.drop_last()), s.last())
    }
}

proof fn lemma_insert_item_at(s: Seq<ItemView>, x: ItemView, p: int)
    requires
        0 <= p <= s.len(),
        forall|j: int| p <= j < s.len() ==> text_lt(x.label, #[trigger] s[j].label),
        p == 0 || !text_lt(x.label, s[p - 1].label),
    ensures
        insert_item(s, x) == s.insert(p, x),
    decreases s.len(),
{
    if s.len() == 0 {
        assert(s.insert(p, x) =~= seq![x]);
    } else if text_lt(x.label, s.last().label) {
        lemma_insert_item_at(s.drop_last(), x, p);
        assert(s.drop_last().insert(p, x).push(s.last()) =~= s.insert(p, x));
    } else {
        assert(s.push(x) =~= s.insert(p, x));
    }
}

/// Whether no item's label orders before an earlier item's label.
pub open spec fn items_ordered(s: Seq<ItemView>) -> bool {
    forall|i: int, j: int| 0 <= i < j < s.len() ==> !text_lt(#[trigger] s[j].label, #[trigger] s[i].label)
}

proof fn lemma_insert_item_multiset(s: Seq<ItemView>, x: ItemView)
    ensures
        insert_item(s, x).to_multiset() == s.to_multiset().insert(x),
    decreases s.len(),
{
    broadcast use vstd::seq_lib::group_to_multiset_ensures;

    if s.len() > 0 {
        let t = s.drop_last();
        assert(t.push(s.last()) == s);
        if text_lt(x.label, s.last().label) {
            lemma_insert_item_multiset(t, x);
            assert(insert_item(s, x).to_multiset() =~= s.to_multiset().insert(x));
        } else {
            assert(s.push(x).to_multiset() =~= s.to_multiset().insert(x));
        }
    } else {
        assert(seq![x] == Seq::<ItemView>::empty().push(x));
        assert(insert_item(s, x).to_multiset() =~= s.to_multiset().insert(x));
    }
}

/// Sorting items loses and adds none.
pub proof fn lemma_sort_items_permutes(s: Seq<ItemView>)
    ensures
        sort_items(s).to_multiset() == s.to_multiset(),
    decreases s.len(),
{
    broadcast use vstd::seq_lib::group_to_multiset_ensures;

    if s.len() > 0 {
        lemma_sort_items_permutes(s.drop_last());
        lemma_insert_item_multiset(sort_items(s.drop_last()), s.last());
        assert(s.drop_last().push(s.last()) == s);
    }
}

proof fn lemma_insert_item_ordered(s: Seq<ItemView>, x: ItemView)
    requires
        items_ordered(s),
    ensures
        items_ordered(insert_item(s, x)),
    decreases s.len(),
{
    broadcast use vstd::seq_lib::group_to_multiset_ensures;

    if s.len() > 0 {
        let t = s.drop_last();
        let last = s.last();
        if text_lt(x.label, last.label) {
            assert(items_ordered(t));
            lemma_insert_item_ordered(t, x);
            lemma_insert_item_multiset(t, x);
            let u = insert_item(t, x);
            assert forall|i: int| 0 <= i < u.len() implies !text_lt(last.label, #[trigger] u[i].label) by {
                assert(u.to_multiset().count(u[i]) > 0);
                assert(t.to_multiset().insert(x).count(u[i]) > 0);
                if u[i] != x {
                    assert(t.to_multiset().count(u[i]) > 0);
                    assert(t.contains(u[i]));
                    let k = choose|k: int| 0 <= k < t.len() && t[k] == u[i];
                    assert(s[k] == t[k]);
                    assert(!text_lt(s[s.len() - 1].label, s[k].label));
                } else {
                    lemma_bytes_lt_asymmetric(encode_utf8(x.label), encode_utf8(last.label));
                }
            }
            let r = u.push(last);
            assert forall|i: int, j: int| 0 <= i < j < r.len() implies !text_lt(#[trigger] r[j].label, #[trigger] r[i].label) by {
                if j < u.len() {
                    assert(r[i] == u[i] && r[j] == u[j]);
                } else {
                    assert(r[i] == u[i]);
                }
            }
        } else {
            let r = s.push(x);
            assert forall|i: int, j: int| 0 <= i < j < r.len() implies !text_lt(#[trigger] r[j].label, #[trigger] r[i].label) by {
                if j < s.len() {
                    assert(r[i] == s[i] && r[j] == s[j]);
                } else {
                    assert(r[i] == s[i]);
                    if i < s.len() - 1 {
                        assert(!text_lt(s[s.len() - 1].label, s[i].label));
                        let a = encode_utf8(x.label);
                        let b = encode_utf8(s[i].label);
                        let c = encode_utf8(last.label);
                        lemma_bytes_lt_total(b, c);
                        if bytes_lt(a, b) && bytes_lt(b, c) {
                            lemma_bytes_lt_transitive(a, b, c);
                        }
                    }
                }
            }
        }
    }
}

/// Sorted items are ordered by label.
pub proof fn lemma_sort_items_ordered(s: Seq<ItemView>)
    ensures
        items_ordered(sort_items(s)),
    decreases s.len(),
{
    if s.len() > 0 {
        lemma_sort_items_ordered(s.drop_last());
        lemma_insert_item_ordered(sort_items(s.drop_last()), s.last());
    }
}

/// Sorts items by label, keeping items with equal labels in their order.
pub fn sort_by_label(items: Vec<CompletionItem>) -> (r: Vec<CompletionItem>)
    ensures
        item_views(r@) == sort_items(item_views(items@)),
{
    let ghost orig = item_views(items@);
    let mut rest = items;
    let mut out: Vec<CompletionItem> = Vec::new();
    let ghost mut k: int = 0;
    while rest.len() > 0
        invariant
            0 <= k <= orig.len(),
            item_views(rest@) == orig.skip(k),
            item_views(out@) == sort_items(orig.take(k)),
        decreases rest@.len(),
    {
        let ghost old_rest = rest@;
        assert(item_views(old_rest).len() == old_rest.len());
        assert(item_views(old_rest)[0] == old_rest[0].view());
        let x = rest.remove(0);
        let ghost xv = x.view();
        assert(xv == orig[k]);
        assert(item_views(rest@) =~= orig.skip(k + 1));
        let mut p = out.len();
        while p > 0 && str_lt(x.label.as_str(), out[p - 1].label.as_str())
            invariant
                xv == x.view(),
                p <= out@.len(),
                forall|j: int| p <= j < out@.len() ==> text_lt(xv.label, #[trigger] out@[j].label@),
            decreases p,
        {
            p = p - 1;
        }
        proof {
            let ov = item_views(out@);
            assert forall|j: int| p <= j < ov.len() implies text_lt(xv.label, #[trigger] ov[j].label) by {
                assert(ov[j].label == out@[j].label@);
            }
            if p > 0 {
                assert(ov[p - 1].label == out@[p - 1].label@);
            }
            lemma_insert_item_at(ov, xv, p as int);
            assert(orig.take(k + 1).drop_last() == orig.take(k));
        }
        let ghost before = out@;
        out.insert(p, x);
        assert(item_views(out@) =~= item_views(before).insert(p as int, xv));
        proof {
            k = k + 1;
        }
    }
    assert(orig.take(k) == orig);
    out
}

/// The item offered for a module name.
pub open spec fn module_item(label: Seq<char>) -> ItemView {
    ItemView {
        label,
        kind: CompletionItemKind::Module,
        detail: None,
        documentation: None,
        insert_text: None,
        snippet: false,
    }
}

fn make_module_item(label: String) -> (r: CompletionItem)
    ensures
        r.view() == module_item(label@),
{
    CompletionItem {
        label,
        kind: CompletionItemKind::Module,
        detail: None,
        documentation: None,
        insert_text: None,
        snippet: false,
    }
}

/// Inserts a text after the last text that does not order after it.
pub open spec fn insert_text_sorted(s: Seq<Seq<char>>, x: Seq<char>) -> Seq<Seq<char>>
    decreases s.len(),
{
    if s.len() == 0 {
        seq![x]
    } else if text_lt(x, s.last()) {
        insert_text_sorted(s.drop_last(), x).push(s.last())
    } else {
        s.push(x)
    }
}

/// Texts in the order std orders strings.
pub open spec fn sort_texts(s: Seq<Seq<char>>) -> Seq<Seq<char>>
    decreases s.len(),
{
    if s.len() == 0 {
        s
    } else {
        insert_text_sorted(sort_texts(s.drop_last()), s.last())
    }
}

proof fn lemma_insert_text_at(s: Seq<Seq<char>>, x: Seq<char>, p: int)
    requires
        0 <= p <= s.len(),
        forall|j: int| p <= j < s.len() ==> text_lt(x, #[trigger] s[j]),
        p == 0 || !text_lt(x, s[p - 1]),
    ensures
        insert_text_sorted(s, x) == s.insert(p, x),
    decreases s.len(),
{
    if s.len() == 0 {
        assert(s.insert(p, x) =~= seq![x]);
    } else if text_lt(x, s.last()) {
        lemma_insert_text_at(s.drop_last(), x, p);
        assert(s.drop_last().insert(p, x).push(s.last()) =~= s.insert(p, x));
    } else {
        assert(s.push(x) =~= s.insert(p, x));
    }
}

/// Sorts texts in the order std orders strings.
pub fn sort_strings(texts: Vec<String>) -> (r: Vec<String>)
    ensures
        views(r@) == sort_texts(views(texts@)),
{
    let ghost orig = views(texts@);
    let mut rest = texts;
    let mut out: Vec<String> = Vec::new();
    let ghost mut k: int = 0;
    while rest.len() > 0
        invariant
            0 <= k <= orig.len(),
            views(rest@) == orig.skip(k),
            views(out@) == sort_texts(orig.take(k)),
        decreases rest@.len(),
    {
        let ghost old_rest = rest@;
        assert(views(old_rest).len() == old_rest.len());
        assert(views(old_rest)[0] == old_rest[0]@);
        let x = rest.remove(0);
        let ghost xv = x@;
        assert(xv == orig[k]);
        assert(views(rest@) =~= orig.skip(k + 1));
        let mut p = out.len();
        while p > 0 && str_lt(x.as_str(), out[p - 1].as_str())
            invariant
                xv == x@,
                p <= out@.len(),
                forall|j: int| p <= j < out@.len() ==> text_lt(xv, #[trigger] out@[j]@),
            decreases p,
        {
            p = p - 1;
        }
        proof {
            let ov = views(out@);
            assert forall|j: int| p <= j < ov.len() implies text_lt(xv, #[trigger] ov[j]) by {
                assert(ov[j] == out@[j]@);
            }
            if p > 0 {
                assert(ov[p - 1] == out@[p - 1]@);
            }
            lemma_insert_text_at(ov, xv, p as int);
            assert(orig.take(k + 1).drop_last() == orig.take(k));
        }
        let ghost before = out@;
        out.insert(p, x);
        assert(views(out@) =~= views(before).insert(p as int, xv));
        proof {
            k = k + 1;
        }
    }
    assert(orig.take(k) == orig);
    out
}

/// The module items among sorted names that begin with `prefix`.
pub open spec fn import_items(sorted: Seq<Seq<char>>, prefix: Seq<char>) -> Seq<ItemView>
    decreases sorted.len(),
{
    if sorted.len() == 0 {
        Seq::empty()
    } else {
        import_items(sorted.drop_last(), prefix) + if is_prefix(
            encode_utf8(prefix),
            encode_utf8(sorted.last()),
        ) {
            seq![module_item(sorted.last())]
        } else {
            Seq::empty()
        }
    }
}

pub open spec fn module_names(ms: Seq<crate::ast::CheckedModule>) -> Seq<Seq<char>> {
    ms.map_values(|m: crate::ast::CheckedModule| m.name@)
}

/// Import completions: the dependency modules and the project's modules, sorted,
/// that begin with the path typed so far (its segments joined by `/`).
pub open spec fn import_completions(
    local: Seq<crate::ast::CheckedModule>,
    dependencies: Seq<Seq<char>>,
    module: Seq<Seq<char>>,
) -> Seq<ItemView> {
    import_items(sort_texts(dependencies + module_names(local)), join_seq(module, "/"@))
}

proof fn lemma_insert_text_members(s: Seq<Seq<char>>, x: Seq<char>, y: Seq<char>)
    requires
        s.contains(y) || y == x,
    ensures
        insert_text_sorted(s, x).contains(y),
    decreases s.len(),
{
    if s.len() == 0 {
        assert(insert_text_sorted(s, x)[0] == x);
    } else if text_lt(x, s.last()) {
        let t = s.drop_last();
        let r = insert_text_sorted(t, x);
        if y == s.last() {
            assert(r.push(s.last())[r.len() as int] == y);
        } else {
            if y != x {
                let k = choose|k: int| 0 <= k < s.len() && s[k] == y;
                assert(k < t.len() && t[k] == y);
            }
            lemma_insert_text_members(t, x, y);
            let k = choose|k: int| 0 <= k < r.len() && r[k] == y;
            assert(r.push(s.last())[k] == y);
        }
    } else {
        if y == x {
            assert(s.push(x)[s.len() as int] == y);
        } else {
            let k = choose|k: int| 0 <= k < s.len() && s[k] == y;
            assert(s.push(x)[k] == y);
        }
    }
}

proof fn lemma_sort_texts_members(s: Seq<Seq<char>>, y: Seq<char>)
    requires
        s.contains(y),
    ensures
        sort_texts(s).contains(y),
    decreases s.len(),
{
    let t = s.drop_last();
    if y != s.last() {
        let k = choose|k: int| 0 <= k < s.len() && s[k] == y;
        assert(k < t.len() && t[k] == y);
        lemma_sort_texts_members(t, y);
    }
    lemma_insert_text_members(sort_texts(t), s.last(), y);
}

proof fn lemma_import_items_members(sorted: Seq<Seq<char>>, prefix: Seq<char>, n: Seq<char>)
    requires
        sorted.contains(n),
        is_prefix(encode_utf8(prefix), encode_utf8(n)),
    ensures
        import_items(sorted, prefix).contains(module_item(n)),
    decreases sorted.len(),
{
    let t = sorted.drop_last();
    let head = import_items(t, prefix);
    if n == sorted.last() {
        assert(import_items(sorted, prefix) == head + seq![module_item(n)]);
        assert(import_items(sorted, prefix)[head.len() as int] == module_item(n));
    } else {
        let k = choose|k: int| 0 <= k < sorted.len() && sorted[k] == n;
        assert(k < t.len() && t[k] == n);
        lemma_import_items_members(t, prefix, n);
        let j = choose|j: int| 0 <= j < head.len() && head[j] == module_item(n);
        assert(import_items(sorted, prefix)[j] == module_item(n));
    }
}

/// Import completion offers exactly the module paths that continue what was typed:
/// every dependency or project module whose name begins with the typed segments
/// joined by `/` is offered as a module item, and every item offered is such a
/// module; the items come in the order std orders their names. With one segment
/// typed the prefix is that segment; with two, `a/b`.
pub proof fn lemma_import_completions_exact(
    local: Seq<crate::ast::CheckedModule>,
    dependencies: Seq<Seq<char>>,
    module: Seq<Seq<char>>,
    name: Seq<char>,
)
    ensures
        (dependencies + module_names(local)).contains(name) && is_prefix(
            encode_utf8(join_seq(module, "/"@)),
            encode_utf8(name),
        ) ==> import_completions(local, dependencies, module).contains(module_item(name)),
        import_completions(local, dependencies, module).contains(module_item(name)) ==> (dependencies
            + module_names(local)).contains(name) && is_prefix(
            encode_utf8(join_seq(module, "/"@)),
            encode_utf8(name),
        ),
        items_ordered(import_completions(local, dependencies, module)),
        module.len() == 1 ==> join_seq(module, "/"@) == module[0],
        module.len() == 2 ==> join_seq(module, "/"@) == module[0] + "/"@ + module[1],
{
    let all = dependencies + module_names(local);
    let sorted = sort_texts(all);
    let prefix = join_seq(module, "/"@);
    lemma_sort_texts_ordered(all);
    lemma_import_items_ordered(sorted, prefix);
    if all.contains(name) && is_prefix(encode_utf8(prefix), encode_utf8(name)) {
        lemma_sort_texts_members(all, name);
        lemma_import_items_members(sorted, prefix, name);
    }
    if import_completions(local, dependencies, module).contains(module_item(name)) {
        lemma_import_items_prefixed(sorted, prefix);
        let i = choose|i: int| 0 <= i < import_items(sorted, prefix).len() && import_items(sorted, prefix)[i] == module_item(name);
        assert(import_items(sorted, prefix)[i].label == name);
        lemma_sort_texts_permutes_members(all, name);
    }
    if module.len() == 2 {
        let d = module.drop_last();
        assert(d.len() == 1);
        assert(join_seq(d, "/"@) == d[0]);
        assert(d[0] == module[0]);
        assert(module.last() == module[1]);
    }
}

proof fn lemma_sort_texts_permutes_members(s: Seq<Seq<char>>, y: Seq<char>)
    requires
        sort_texts(s).contains(y),
    ensures
        s.contains(y),
    decreases s.len(),
{
    if s.len() > 0 {
        let t = s.drop_last();
        lemma_insert_text_source(sort_texts(t), s.last(), y);
        if y != s.last() {
            lemma_sort_texts_permutes_members(t, y);
            let k = choose|k: int| 0 <= k < t.len() && t[k] == y;
            assert(s[k] == y);
        } else {
            assert(s[s.len() - 1] == y);
        }
    }
}

proof fn lemma_insert_text_source(s: Seq<Seq<char>>, x: Seq<char>, y: Seq<char>)
    requires
        insert_text_sorted(s, x).contains(y),
    ensures
        s.contains(y) || y == x,
    decreases s.len(),
{
    if s.len() > 0 {
        let t = s.drop_last();
        if text_lt(x, s.last()) {
            let r = insert_text_sorted(t, x);
            let k = choose|k: int| 0 <= k < r.push(s.last()).len() && r.push(s.last())[k] == y;
            if k < r.len() {
                assert(r[k] == y);
                lemma_insert_text_source(t, x, y);
                if y != x {
                    let j = choose|j: int| 0 <= j < t.len() && t[j] == y;
                    assert(s[j] == y);
                }
            } else {
                assert(s[s.len() - 1] == y);
            }
        } else {
            let k = choose|k: int| 0 <= k < s.push(x).len() && s.push(x)[k] == y;
            if k < s.len() {
                assert(s[k] == y);
            }
        }
    }
}

/// Whether no text orders before an earlier one.
pub open spec fn texts_ordered(s: Seq<Seq<char>>) -> bool {
    forall|i: int, j: int| 0 <= i < j < s.len() ==> !text_lt(#[trigger] s[j], #[trigger] s[i])
}

proof fn lemma_insert_text_ordered(s: Seq<Seq<char>>, x: Seq<char>)
    requires
        texts_ordered(s),
    ensures
        texts_ordered(insert_text_sorted(s, x)),
    decreases s.len(),
{
    if s.len() > 0 {
        let t = s.drop_last();
        let last = s.last();
        if text_lt(x, last) {
            assert(texts_ordered(t));
            lemma_insert_text_ordered(t, x);
            let u = insert_text_sorted(t, x);
            assert forall|i: int| 0 <= i < u.len() implies !text_lt(last, #[trigger] u[i]) by {
                assert(u.contains(u[i]));
                lemma_insert_text_source(t, x, u[i]);
                if u[i] != x {
                    let k = choose|k: int| 0 <= k < t.len() && t[k] == u[i];
                    assert(s[k] == t[k]);
                    assert(!text_lt(s[s.len() - 1], s[k]));
                } else {
                    lemma_bytes_lt_asymmetric(encode_utf8(x), encode_utf8(last));
                }
            }
            let r = u.push(last);
            assert forall|i: int, j: int| 0 <= i < j < r.len() implies !text_lt(#[trigger] r[j], #[trigger] r[i]) by {
                if j < u.len() {
                    assert(r[i] == u[i] && r[j] == u[j]);
                } else {
                    assert(r[i] == u[i]);
                }
            }
        } else {
            let r = s.push(x);
            assert forall|i: int, j: int| 0 <= i < j < r.len() implies !text_lt(#[trigger] r[j], #[trigger] r[i]) by {
                if j < s.len() {
                    assert(r[i] == s[i] && r[j] == s[j]);
                } else {
                    assert(r[i] == s[i]);
                    if i < s.len() - 1 {
                        assert(!text_lt(s[s.len() - 1], s[i]));
                        let a = encode_utf8(x);
                        let b = encode_utf8(s[i]);
                        let c = encode_utf8(last);
                        lemma_bytes_lt_total(b, c);
                        if bytes_lt(a, b) && bytes_lt(b, c) {
                            lemma_bytes_lt_transitive(a, b, c);
                        }
                    }
                }
            }
        }
    }
}

proof fn lemma_sort_texts_ordered(s: Seq<Seq<char>>)
    ensures
        texts_ordered(sort_texts(s)),
    decreases s.len(),
{
    if s.len() > 0 {
        lemma_sort_texts_ordered(s.drop_last());
        lemma_insert_text_ordered(sort_texts(s.drop_last()), s.last());
    }
}

proof fn lemma_import_items_ordered(sorted: Seq<Seq<char>>, prefix: Seq<char>)
    requires
        texts_ordered(sorted),
    ensures
        items_ordered(import_items(sorted, prefix)),
    decreases sorted.len(),
{
    if sorted.len() > 0 {
        let t = sorted.drop_last();
        assert(texts_ordered(t));
        lemma_import_items_ordered(t, prefix);
        lemma_import_items_prefixed(t, prefix);
        let head = import_items(t, prefix);
        let r = import_items(sorted, prefix);
        if is_prefix(encode_utf8(prefix), encode_utf8(sorted.last())) {
            assert(r == head.push(module_item(sorted.last())));
            assert forall|i: int, j: int| 0 <= i < j < r.len() implies !text_lt(#[trigger] r[j].label, #[trigger] r[i].label) by {
                if j < head.len() {
                    assert(r[i] == head[i] && r[j] == head[j]);
                } else {
                    assert(r[i] == head[i]);
                    assert(t.contains(head[i].label));
                    let k = choose|k: int| 0 <= k < t.len() && t[k] == head[i].label;
                    assert(sorted[k] == t[k]);
                    assert(!text_lt(sorted[sorted.len() - 1], sorted[k]));
                }
            }
        } else {
            assert(r == head);
        }
    }
}

fn all_module_names(local_modules: &Vec<crate::ast::CheckedModule>, dependency_modules: Vec<String>) -> (r: Vec<String>)
    ensures
        views(r@) == views(dependency_modules@) + module_names(local_modules@),
{
    let ghost deps = views(dependency_modules@);
    let mut all = dependency_modules;
    let n = local_modules.len();
    let mut i: usize = 0;
    while i < n
        invariant
            n == local_modules@.len(),
            i <= n,
            views(all@) == deps + module_names(local_modules@.take(i as int)),
        decreases n - i,
    {
        let ghost prev = all@;
        let ghost name = local_modules@[i as int].name@;
        all.push(local_modules[i].name.clone());
        assert(views(all@) =~= views(prev).push(name));
        assert(local_modules@.take(i + 1) == local_modules@.take(i as int).push(local_modules@[i as int]));
        assert(module_names(local_modules@.take(i + 1)) =~= module_names(local_modules@.take(i as int)).push(name));
        i = i + 1;
    }
    assert(local_modules@.take(n as int) == local_modules@);
    all
}

fn filter_imports(sorted: &Vec<String>, prefix: &String) -> (r: Vec<CompletionItem>)
    ensures
        item_views(r@) == import_items(views(sorted@), prefix@),
{
    let ghost sv = views(sorted@);
    let mut out: Vec<CompletionItem> = Vec::new();
    let m = sorted.len();
    let mut j: usize = 0;
    while j < m
        invariant
            m == sorted@.len(),
            sv == views(sorted@),
            j <= m,
            item_views(out@) == import_items(sv.take(j as int), prefix@),
        decreases m - j,
    {
        assert(sv.take(j + 1).drop_last() == sv.take(j as int));
        assert(sv.take(j + 1).last() == sorted@[j as int]@);
        if starts_with(sorted[j].as_str(), prefix.as_str()) {
            let ghost prev = out@;
            out.push(make_module_item(sorted[j].clone()));
            assert(item_views(out@) =~= item_views(prev).push(module_item(sv[j as int])));
        }
        j = j + 1;
    }
    assert(sv.take(m as int) == sv);
    out
}

/// Every import completion is a module item whose name begins with the path typed.
pub proof fn lemma_import_items_prefixed(sorted: Seq<Seq<char>>, prefix: Seq<char>)
    ensures
        forall|i: int| 0 <= i < import_items(sorted, prefix).len() ==> {
            let it = #[trigger] import_items(sorted, prefix)[i];
            &&& it.kind == CompletionItemKind::Module
            &&& is_prefix(encode_utf8(prefix), encode_utf8(it.label))
            &&& sorted.contains(it.label)
        },
    decreases sorted.len(),
{
    if sorted.len() > 0 {
        let t = sorted.drop_last();
        lemma_import_items_prefixed(t, prefix);
        let head = import_items(t, prefix);
        assert forall|i: int| 0 <= i < import_items(sorted, prefix).len() implies {
            let it = #[trigger] import_items(sorted, prefix)[i];
            &&& it.kind == CompletionItemKind::Module
            &&& is_prefix(encode_utf8(prefix), encode_utf8(it.label))
            &&& sorted.contains(it.label)
        } by {
            if i < head.len() {
                let it = head[i];
                assert(import_items(sorted, prefix)[i] == it);
                let k = choose|k: int| 0 <= k < t.len() && t[k] == it.label;
                assert(sorted[k] == t[k]);
            } else {
                assert(sorted[sorted.len() - 1] == sorted.last());
            }
        }
    }
}

/// Module path completions for an import.
pub fn completion_for_import(
    local_modules: &Vec<crate::ast::CheckedModule>,
    dependency_modules: Vec<String>,
    module: &Vec<String>,
) -> (r: Vec<CompletionItem>)
    ensures
        item_views(r@) == import_completions(local_modules@, views(dependency_modules@), views(module@)),
{
    let all = all_module_names(local_modules, dependency_modules);
    let sorted = sort_strings(all);
    let prefix = join(module, "/");
    filter_imports(&sorted, &prefix)
}


/// Whether every value's field maps leave room to count their slots.
pub open spec fn values_bounded(values: Seq<ScopeValue>) -> bool {
    forall|i: int| 0 <= i < values.len() ==> variant_bounded(#[trigger] values[i].constructor.variant)
}

fn fields_bounded(fields: &Vec<Field>) -> (r: bool)
    ensures
        r == indices_bounded(fields@),
{
    let n = fields.len();
    let mut i: usize = 0;
    while i < n
        invariant
            n == fields@.len(),
            i <= n,
            forall|k: int| 0 <= k < i ==> #[trigger] fields@[k].index + fields@.len() < usize::MAX,
        decreases n - i,
    {
        if fields[i].index >= usize::MAX - n {
            assert(!(fields@[i as int].index + fields@.len() < usize::MAX));
            return false;
        }
        i = i + 1;
    }
    true
}

/// Whether the labelled-argument positions of every value leave room for the
/// machine's integers, which the completion functions need.
pub fn values_are_bounded(values: &Vec<ScopeValue>) -> (r: bool)
    ensures
        r == values_bounded(values@),
{
    let n = values.len();
    let mut i: usize = 0;
    while i < n
        invariant
            n == values@.len(),
            i <= n,
            forall|k: int| 0 <= k < i ==> variant_bounded(#[trigger] values@[k].constructor.variant),
        decreases n - i,
    {
        let ok = match &values[i].constructor.variant {
            ValueConstructorVariant::ModuleFn { field_map: Some(m), .. } => fields_bounded(&m.fields),
            ValueConstructorVariant::Record { field_map: Some(m), .. } => fields_bounded(&m.fields),
            _ => true,
        };
        if !ok {
            assert(!variant_bounded(values@[i as int].constructor.variant));
            return false;
        }
        i = i + 1;
    }
    true
}

/// The items of values offered in an expression: all but local variables and
/// generated ordinal argument names.
pub open spec fn expression_value_items(values: Seq<ScopeValue>) -> Seq<ItemView>
    decreases values.len(),
{
    if values.len() == 0 {
        Seq::empty()
    } else {
        let v = values.last();
        expression_value_items(values.drop_last()) + if v.constructor.variant is LocalVariable
            || ordinal_argument_name(encode_utf8(v.name@)) {
            Seq::<ItemView>::empty()
        } else {
            seq![value_item(v.name@, v.constructor)]
        }
    }
}

/// The module items offered in an expression: every importable module but the
/// current one.
pub open spec fn expression_module_items(modules: Seq<Seq<char>>, current: Seq<char>) -> Seq<ItemView>
    decreases modules.len(),
{
    if modules.len() == 0 {
        Seq::empty()
    } else {
        expression_module_items(modules.drop_last(), current) + if modules.last() == current {
            Seq::<ItemView>::empty()
        } else {
            seq![module_item(modules.last())]
        }
    }
}

/// Expression completions: values then modules, sorted by label.
pub open spec fn expression_completions(t: TypeInfo, importable: Seq<Seq<char>>) -> Seq<ItemView> {
    sort_items(expression_value_items(t.values@) + expression_module_items(importable, t.name@))
}

/// Expression completions hold exactly the offered values and the other modules,
/// as a multiset, ordered by label.
pub proof fn lemma_expression_completions(t: TypeInfo, importable: Seq<Seq<char>>)
    ensures
        expression_completions(t, importable).to_multiset() == (expression_value_items(t.values@)
            + expression_module_items(importable, t.name@)).to_multiset(),
        items_ordered(expression_completions(t, importable)),
{
    let all = expression_value_items(t.values@) + expression_module_items(importable, t.name@);
    lemma_sort_items_permutes(all);
    lemma_sort_items_ordered(all);
}

/// Completions in an expression: values in scope and modules for qualified access.
pub fn completion_for_expression(type_info: &TypeInfo, importable_modules: &Vec<String>) -> (r: Option<
    Vec<CompletionItem>,
>)
    requires
        values_bounded(type_info.values@),
    ensures
        r matches Some(v) && item_views(v@) == expression_completions(*type_info, views(importable_modules@)),
{
    let values = &type_info.values;
    let mut items: Vec<CompletionItem> = Vec::new();
    let n = values.len();
    let mut i: usize = 0;
    while i < n
        invariant
            n == values@.len(),
            i <= n,
            values_bounded(values@),
            item_views(items@) == expression_value_items(values@.take(i as int)),
        decreases n - i,
    {
        assert(values@.take(i + 1).drop_last() == values@.take(i as int));
        assert(values@.take(i + 1).last() == values@[i as int]);
        let v = &values[i];
        let local = match &v.constructor.variant {
            ValueConstructorVariant::LocalVariable => true,
            _ => false,
        };
        if !local && !is_ordinal_argument_name(v.name.as_str()) {
            assert(variant_bounded(values@[i as int].constructor.variant));
            let item = value_to_completion_item(v.name.as_str(), &v.constructor);
            let ghost prev = items@;
            items.push(item);
            assert(item_views(items@) =~= item_views(prev).push(value_item(v.name@, v.constructor)));
        }
        i = i + 1;
    }
    assert(values@.take(n as int) == values@);
    let ghost first = item_views(items@);
    let ms = importable_modules;
    let ghost mv = views(ms@);
    let m = ms.len();
    let mut j: usize = 0;
    while j < m
        invariant
            m == ms@.len(),
            mv == views(ms@),
            j <= m,
            item_views(items@) == first + expression_module_items(mv.take(j as int), type_info.name@),
        decreases m - j,
    {
        assert(mv.take(j + 1).drop_last() == mv.take(j as int));
        assert(mv.take(j + 1).last() == ms@[j as int]@);
        if !str_equal(ms[j].as_str(), type_info.name.as_str()) {
            let ghost prev = items@;
            items.push(make_module_item(ms[j].clone()));
            assert(item_views(items@) =~= item_views(prev).push(module_item(mv[j as int])));
        }
        j = j + 1;
    }
    assert(mv.take(m as int) == mv);
    Some(sort_by_label(items))
}

fn find_value(values: &Vec<ScopeValue>, name: &str) -> (r: Option<usize>)
    ensures
        match r {
            Some(i) => i < values@.len() && values@[i as int].name@ == name@ && forall|j: int| 0 <= j < i ==> values@[j].name@ != name@,
            None => forall|j: int| 0 <= j < values@.len() ==> values@[j].name@ != name@,
        },
{
    let n = values.len();
    let mut i: usize = 0;
    while i < n
        invariant
            n == values@.len(),
            i <= n,
            forall|j: int| 0 <= j < i ==> values@[j].name@ != name@,
        decreases n - i,
    {
        if str_equal(values[i].name.as_str(), name) {
            return Some(i);
        }
        i = i + 1;
    }
    None
}

/// The constructor names listed for the first type of that printed name.
pub open spec fn constructors_of(tcs: Seq<TypeConstructors>, type_text: Seq<char>) -> Option<Seq<String>>
    decreases tcs.len(),
{
    if tcs.len() == 0 {
        None
    } else if tcs[0].name@ == type_text {
        Some(tcs[0].constructors@)
    } else {
        constructors_of(tcs.drop_first(), type_text)
    }
}

proof fn lemma_constructors_of_at(tcs: Seq<TypeConstructors>, i: int)
    requires
        forall|a: int, b: int| 0 <= a < b < tcs.len() ==> (#[trigger] tcs[a]).name@ != (#[trigger] tcs[b]).name@,
        0 <= i < tcs.len(),
    ensures
        constructors_of(tcs, tcs[i].name@) == Some(tcs[i].constructors@),
    decreases i,
{
    if i > 0 {
        assert(tcs[0].name@ != tcs[i].name@);
        let rest = tcs.drop_first();
        assert forall|a: int, b: int| 0 <= a < b < rest.len() implies (#[trigger] rest[a]).name@
            != (#[trigger] rest[b]).name@ by {
            assert(rest[a] == tcs[a + 1] && rest[b] == tcs[b + 1]);
        }
        lemma_constructors_of_at(rest, i - 1);
        assert(rest[i - 1] == tcs[i]);
    }
}

proof fn lemma_first_value_at(values: Seq<ScopeValue>, i: int)
    requires
        forall|a: int, b: int| 0 <= a < b < values.len() ==> (#[trigger] values[a]).name@ != (#[trigger] values[b]).name@,
        0 <= i < values.len(),
    ensures
        first_value(values, values[i].name@) == Some(values[i]),
    decreases i,
{
    if i > 0 {
        assert(values[0].name@ != values[i].name@);
        let rest = values.drop_first();
        assert forall|a: int, b: int| 0 <= a < b < rest.len() implies (#[trigger] rest[a]).name@
            != (#[trigger] rest[b]).name@ by {
            assert(rest[a] == values[a + 1] && rest[b] == values[b + 1]);
        }
        lemma_first_value_at(rest, i - 1);
        assert(rest[i - 1] == values[i]);
    }
}

/// Where what is in scope is keyed by name, the constructor list found under a type
/// name and the value found under a name are the ones that have it, wherever they
/// stand.
pub proof fn lemma_scope_lookups_keyed(t: TypeInfo, i: int, k: int)
    requires
        type_info_wf(t),
        0 <= i < t.types_constructors@.len(),
        0 <= k < t.values@.len(),
    ensures
        constructors_of(t.types_constructors@, t.types_constructors@[i].name@) == Some(
            t.types_constructors@[i].constructors@,
        ),
        first_value(t.values@, t.values@[k].name@) == Some(t.values@[k]),
{
    lemma_constructors_of_at(t.types_constructors@, i);
    lemma_first_value_at(t.values@, k);
}

/// The items of the listed constructor names that are values in scope, in order.
pub open spec fn listed_constructor_items(names: Seq<String>, values: Seq<ScopeValue>) -> Seq<ItemView>
    decreases names.len(),
{
    if names.len() == 0 {
        Seq::empty()
    } else {
        let n = names.last();
        listed_constructor_items(names.drop_last(), values) + match first_value(values, n@) {
            Some(v) => seq![value_item(n@, v.constructor)],
            None => Seq::empty(),
        }
    }
}

/// The first value of that name.
pub open spec fn first_value(values: Seq<ScopeValue>, name: Seq<char>) -> Option<ScopeValue>
    decreases values.len(),
{
    if values.len() == 0 {
        None
    } else if values[0].name@ == name {
        Some(values[0])
    } else {
        first_value(values.drop_first(), name)
    }
}

proof fn lemma_first_value(values: Seq<ScopeValue>, name: Seq<char>, i: int)
    requires
        0 <= i <= values.len(),
        forall|j: int| 0 <= j < i ==> values[j].name@ != name,
        i < values.len() ==> values[i].name@ == name,
        i == values.len() ==> forall|j: int| 0 <= j < values.len() ==> values[j].name@ != name,
    ensures
        first_value(values, name) == if i < values.len() { Some(values[i]) } else { None },
    decreases values.len(),
{
    if values.len() > 0 && i > 0 {
        lemma_first_value(values.drop_first(), name, i - 1);
    }
}

/// The record values in scope, in order.
pub open spec fn record_items(values: Seq<ScopeValue>) -> Seq<ItemView>
    decreases values.len(),
{
    if values.len() == 0 {
        Seq::empty()
    } else {
        let v = values.last();
        record_items(values.drop_last()) + if v.constructor.variant is Record {
            seq![value_item(v.name@, v.constructor)]
        } else {
            Seq::<ItemView>::empty()
        }
    }
}

/// Pattern completions: the constructors listed for the pattern's type that are in
/// scope; where that gives nothing, every record constructor in scope.
pub open spec fn pattern_completions(t: TypeInfo, type_text: Seq<char>) -> Seq<ItemView> {
    let listed = match constructors_of(t.types_constructors@, type_text) {
        Some(names) => listed_constructor_items(names, t.values@),
        None => Seq::empty(),
    };
    if listed.len() > 0 {
        listed
    } else {
        record_items(t.values@)
    }
}

fn find_type_constructors(tcs: &Vec<TypeConstructors>, type_text: &str) -> (r: Option<usize>)
    ensures
        match r {
            Some(i) => i < tcs@.len() && constructors_of(tcs@, type_text@) == Some(tcs@[i as int].constructors@),
            None => constructors_of(tcs@, type_text@) is None,
        },
{
    let n = tcs.len();
    let mut i: usize = 0;
    while i < n
        invariant
            n == tcs@.len(),
            i <= n,
            constructors_of(tcs@, type_text@) == constructors_of(tcs@.skip(i as int), type_text@),
        decreases n - i,
    {
        assert(tcs@.skip(i as int)[0] == tcs@[i as int]);
        assert(tcs@.skip(i as int).drop_first() == tcs@.skip(i + 1));
        if str_equal(tcs[i].name.as_str(), type_text) {
            return Some(i);
        }
        i = i + 1;
    }
    assert(tcs@.skip(n as int).len() == 0);
    None
}

/// Completions in a pattern whose type prints as `type_text`.
pub fn completion_for_pattern(type_info: &TypeInfo, type_text: &str) -> (r: Option<Vec<CompletionItem>>)
    requires
        values_bounded(type_info.values@),
    ensures
        r matches Some(v) && item_views(v@) == pattern_completions(*type_info, type_text@),
{
    let values = &type_info.values;
    let mut items: Vec<CompletionItem> = Vec::new();
    let ghost listed = match constructors_of(type_info.types_constructors@, type_text@) {
        Some(names) => listed_constructor_items(names, values@),
        None => Seq::empty(),
    };
    match find_type_constructors(&type_info.types_constructors, type_text) {
        Some(k) => {
            let names = &type_info.types_constructors[k].constructors;
            let n = names.len();
            let mut i: usize = 0;
            while i < n
                invariant
                    n == names@.len(),
                    i <= n,
                    values_bounded(values@),
                    item_views(items@) == listed_constructor_items(names@.take(i as int), values@),
                decreases n - i,
            {
                assert(names@.take(i + 1).drop_last() == names@.take(i as int));
                assert(names@.take(i + 1).last() == names@[i as int]);
                match find_value(values, names[i].as_str()) {
                    Some(vi) => {
                        proof {
                            lemma_first_value(values@, names@[i as int]@, vi as int);
                        }
                        assert(variant_bounded(values@[vi as int].constructor.variant));
                        let item = value_to_completion_item(names[i].as_str(), &values[vi].constructor);
                        let ghost prev = items@;
                        items.push(item);
                        assert(item_views(items@) =~= item_views(prev).push(
                            value_item(names@[i as int]@, values@[vi as int].constructor),
                        ));
                    },
                    None => {
                        proof {
                            lemma_first_value(values@, names@[i as int]@, values@.len() as int);
                        }
                    },
                }
                i = i + 1;
            }
            assert(names@.take(n as int) == names@);
        },
        None => {},
    }
    assert(item_views(items@) == listed);
    if items.len() == 0 {
        let n = values.len();
        let mut i: usize = 0;
        while i < n
            invariant
                n == values@.len(),
                i <= n,
                values_bounded(values@),
                item_views(items@) == record_items(values@.take(i as int)),
            decreases n - i,
        {
            assert(values@.take(i + 1).drop_last() == values@.take(i as int));
            assert(values@.take(i + 1).last() == values@[i as int]);
            let v = &values[i];
            match &v.constructor.variant {
                ValueConstructorVariant::Record { .. } => {
                    assert(variant_bounded(values@[i as int].constructor.variant));
                    let item = value_to_completion_item(v.name.as_str(), &v.constructor);
                    let ghost prev = items@;
                    items.push(item);
                    assert(item_views(items@) =~= item_views(prev).push(value_item(v.name@, v.constructor)));
                },
                _ => {},
            }
            i = i + 1;
        }
        assert(values@.take(n as int) == values@);
    }
    Some(items)
}


/// The item offered for a type in scope.
pub open spec fn type_item(t: ScopeType) -> ItemView {
    ItemView {
        label: t.name@,
        kind: CompletionItemKind::Class,
        detail: None,
        documentation: Some(markdown(t.type_text@)),
        insert_text: None,
        snippet: false,
    }
}

pub open spec fn type_items(ts: Seq<ScopeType>) -> Seq<ItemView> {
    ts.map_values(|t: ScopeType| type_item(t))
}

/// Completions in a type annotation: every type in scope, sorted by label.
pub fn completion_for_annotation(type_info: &TypeInfo) -> (r: Option<Vec<CompletionItem>>)
    ensures
        r matches Some(v) && item_views(v@) == sort_items(type_items(type_info.types@)),
{
    let types = &type_info.types;
    let mut items: Vec<CompletionItem> = Vec::new();
    let n = types.len();
    let mut i: usize = 0;
    while i < n
        invariant
            n == types@.len(),
            i <= n,
            item_views(items@) == type_items(types@.take(i as int)),
        decreases n - i,
    {
        let t = &types[i];
        let item = CompletionItem {
            label: t.name.clone(),
            kind: CompletionItemKind::Class,
            detail: None,
            documentation: Some(markdown_of(&t.type_text)),
            insert_text: None,
            snippet: false,
        };
        let ghost prev = items@;
        items.push(item);
        assert(item_views(items@) =~= item_views(prev).push(type_item(types@[i as int])));
        assert(types@.take(i + 1) == types@.take(i as int).push(types@[i as int]));
        assert(type_items(types@.take(i + 1)) =~= type_items(types@.take(i as int)).push(type_item(types@[i as int])));
        i = i + 1;
    }
    assert(types@.take(n as int) == types@);
    Some(sort_by_label(items))
}

/// A labelled-argument suggestion: a label, and whether it comes from a record
/// constructor (else from a function).
pub struct LabelEntry {
    pub label: Seq<char>,
    pub from_record: bool,
}

pub open spec fn field_entries(fs: Seq<Field>, from_record: bool) -> Seq<LabelEntry> {
    fs.map_values(|f: Field| LabelEntry { label: f.label@, from_record })
}

/// The labels of the field maps of the functions (or, with `records`, of the record
/// constructors) in scope, in order.
pub open spec fn label_entries(values: Seq<ScopeValue>, records: bool) -> Seq<LabelEntry>
    decreases values.len(),
{
    if values.len() == 0 {
        Seq::empty()
    } else {
        label_entries(values.drop_last(), records) + match values.last().constructor.variant {
            ValueConstructorVariant::ModuleFn { field_map: Some(fm), .. } => if !records {
                field_entries(fm.fields@, false)
            } else {
                Seq::empty()
            },
            ValueConstructorVariant::Record { field_map: Some(fm), .. } => if records {
                field_entries(fm.fields@, true)
            } else {
                Seq::empty()
            },
            _ => Seq::empty(),
        }
    }
}

/// The entries whose label did not come before.
pub open spec fn first_entries(es: Seq<LabelEntry>) -> Seq<LabelEntry>
    decreases es.len(),
{
    if es.len() == 0 {
        Seq::empty()
    } else {
        let e = es.last();
        first_entries(es.drop_last()) + if (exists|j: int| 0 <= j < es.len() - 1 && #[trigger] es[j].label == e.label) {
            Seq::<LabelEntry>::empty()
        } else {
            seq![e]
        }
    }
}

/// Each label is suggested once: the kept entries have pairwise different labels.
pub proof fn lemma_first_entries_distinct(es: Seq<LabelEntry>)
    ensures
        forall|i: int, j: int|
            0 <= i < j < first_entries(es).len() ==> (#[trigger] first_entries(es)[i]).label
                != (#[trigger] first_entries(es)[j]).label,
        forall|i: int| 0 <= i < first_entries(es).len() ==> exists|k: int| 0 <= k < es.len() && es[k] == #[trigger] first_entries(es)[i],
    decreases es.len(),
{
    if es.len() > 0 {
        let t = es.drop_last();
        lemma_first_entries_distinct(t);
        let f = first_entries(t);
        let e = es.last();
        if !(exists|j: int| 0 <= j < es.len() - 1 && #[trigger] es[j].label == e.label) {
            let r = f + seq![e];
            assert forall|i: int, j: int| 0 <= i < j < r.len() implies (#[trigger] r[i]).label != (#[trigger] r[j]).label by {
                if j == f.len() {
                    assert(r[i] == f[i]);
                    let k = choose|k: int| 0 <= k < t.len() && t[k] == f[i];
                    assert(es[k] == t[k]);
                } else {
                    assert(r[i] == f[i] && r[j] == f[j]);
                }
            }
            assert forall|i: int| 0 <= i < r.len() implies exists|k: int| 0 <= k < es.len() && es[k] == #[trigger] r[i] by {
                if i < f.len() {
                    assert(r[i] == f[i]);
                    let k = choose|k: int| 0 <= k < t.len() && t[k] == f[i];
                    assert(es[k] == t[k]);
                } else {
                    assert(es[es.len() - 1] == r[i]);
                }
            }
        } else {
            assert forall|i: int| 0 <= i < f.len() implies exists|k: int| 0 <= k < es.len() && es[k] == #[trigger] f[i] by {
                let k = choose|k: int| 0 <= k < t.len() && t[k] == f[i];
                assert(es[k] == t[k]);
            }
        }
    }
}

/// The item of a labelled-argument suggestion: `label:`, inserting `label: ${1}`.
pub open spec fn label_item(e: LabelEntry) -> ItemView {
    ItemView {
        label: e.label + ":"@,
        kind: CompletionItemKind::Property,
        detail: Some(if e.from_record {
            "record field `"@ + e.label + "`"@
        } else {
            "labeled argument `"@ + e.label + "`"@
        }),
        documentation: None,
        insert_text: Some(e.label + ": ${1}"@),
        snippet: true,
    }
}

/// Argument completions: the labels of functions, then of record constructors, each
/// label once, sorted.
pub open spec fn argument_completions(t: TypeInfo) -> Seq<ItemView> {
    sort_items(
        first_entries(label_entries(t.values@, false) + label_entries(t.values@, true)).map_values(
            |e: LabelEntry| label_item(e),
        ),
    )
}

fn make_label_item(label: &String, from_record: bool) -> (r: CompletionItem)
    ensures
        r.view() == label_item(LabelEntry { label: label@, from_record }),
{
    let mut l = label.clone();
    l.append(":");
    let mut d = if from_record {
        owned("record field `")
    } else {
        owned("labeled argument `")
    };
    d.append(label.as_str());
    d.append("`");
    let mut t = label.clone();
    t.append(": ${1}");
    CompletionItem {
        label: l,
        kind: CompletionItemKind::Property,
        detail: Some(d),
        documentation: None,
        insert_text: Some(t),
        snippet: true,
    }
}

/// Suggests each label of `fields` not seen before; `seen` holds the labels of all
/// entries so far.
fn suggest_fields(
    fields: &Vec<Field>,
    from_record: bool,
    seen: &mut Vec<String>,
    items: &mut Vec<CompletionItem>,
    Ghost(before): Ghost<Seq<LabelEntry>>,
)
    requires
        views(old(seen)@) == before.map_values(|e: LabelEntry| e.label),
        item_views(old(items)@) == first_entries(before).map_values(|e: LabelEntry| label_item(e)),
    ensures
        views(final(seen)@) == (before + field_entries(fields@, from_record)).map_values(|e: LabelEntry| e.label),
        item_views(final(items)@) == first_entries(before + field_entries(fields@, from_record)).map_values(
            |e: LabelEntry| label_item(e),
        ),
{
    let n = fields.len();
    let mut i: usize = 0;
    while i < n
        invariant
            n == fields@.len(),
            i <= n,
            views(seen@) == (before + field_entries(fields@.take(i as int), from_record)).map_values(|e: LabelEntry| e.label),
            item_views(items@) == first_entries(before + field_entries(fields@.take(i as int), from_record)).map_values(
                |e: LabelEntry| label_item(e),
            ),
        decreases n - i,
    {
        let label = &fields[i].label;
        let ghost es = before + field_entries(fields@.take(i as int), from_record);
        let ghost e = LabelEntry { label: label@, from_record };
        let ghost es2 = before + field_entries(fields@.take(i + 1), from_record);
        assert(fields@.take(i + 1) == fields@.take(i as int).push(fields@[i as int]));
        assert(es2 =~= es.push(e));
        assert(es2.drop_last() == es);
        let mut found = false;
        let m = seen.len();
        assert(views(seen@).len() == seen@.len());
        assert(es.map_values(|x: LabelEntry| x.label).len() == es.len());
        let mut j: usize = 0;
        while j < m
            invariant
                m == seen@.len(),
                j <= m,
                views(seen@) == es.map_values(|x: LabelEntry| x.label),
                es.len() == m,
                found == exists|k: int| 0 <= k < j && #[trigger] es[k].label == label@,
            decreases m - j,
        {
            assert(views(seen@)[j as int] == es[j as int].label);
            if str_equal(seen[j].as_str(), label.as_str()) {
                found = true;
            }
            j = j + 1;
        }
        proof {
            assert(es.map_values(|x: LabelEntry| x.label).len() == es.len());
            assert(es2.last() == e);
            if found {
                let k = choose|k: int| 0 <= k < m && #[trigger] es[k].label == label@;
                assert(es2[k] == es[k]);
                assert(exists|jj: int| 0 <= jj < es2.len() - 1 && #[trigger] es2[jj].label == e.label);
            } else {
                assert forall|jj: int| 0 <= jj < es2.len() - 1 implies #[trigger] es2[jj].label != e.label by {
                    assert(es2[jj] == es[jj]);
                }
            }
        }
        if !found {
            let ghost prev_items = items@;
            items.push(make_label_item(label, from_record));
            assert(item_views(items@) =~= item_views(prev_items).push(label_item(e)));
            assert(first_entries(es2) == first_entries(es) + seq![e]);
            assert(first_entries(es2).map_values(|x: LabelEntry| label_item(x)) =~= first_entries(es).map_values(
                |x: LabelEntry| label_item(x),
            ).push(label_item(e)));
        } else {
            assert(first_entries(es2) == first_entries(es));
        }
        let ghost prev_seen = seen@;
        seen.push(label.clone());
        assert(views(seen@) =~= views(prev_seen).push(label@));
        assert(es2.map_values(|x: LabelEntry| x.label) =~= es.map_values(|x: LabelEntry| x.label).push(label@));
        i = i + 1;
    }
    assert(fields@.take(n as int) == fields@);
}

/// Completions in a call argument: labelled-argument suggestions.
pub fn completion_for_argument(type_info: &TypeInfo) -> (r: Option<Vec<CompletionItem>>)
    ensures
        r matches Some(v) && item_views(v@) == argument_completions(*type_info),
{
    let values = &type_info.values;
    let mut items: Vec<CompletionItem> = Vec::new();
    let mut seen: Vec<String> = Vec::new();
    let ghost fn_entries = label_entries(values@, false);
    let n = values.len();
    let mut pass: usize = 0;
    while pass < 2
        invariant
            n == values@.len(),
            pass <= 2,
            fn_entries == label_entries(values@, false),
            pass == 0 ==> views(seen@) == Seq::<Seq<char>>::empty() && items@ == Seq::<CompletionItem>::empty(),
            pass == 1 ==> views(seen@) == fn_entries.map_values(|e: LabelEntry| e.label)
                && item_views(items@) == first_entries(fn_entries).map_values(|e: LabelEntry| label_item(e)),
            pass == 2 ==> item_views(items@) == first_entries(fn_entries + label_entries(values@, true)).map_values(
                |e: LabelEntry| label_item(e),
            ),
        decreases 2 - pass,
    {
        let records = pass == 1;
        let ghost base = if records { fn_entries } else { Seq::<LabelEntry>::empty() };
        assert(views(seen@) =~= base.map_values(|e: LabelEntry| e.label));
        assert(item_views(items@) =~= first_entries(base).map_values(|e: LabelEntry| label_item(e)));
        let mut i: usize = 0;
        while i < n
            invariant
                n == values@.len(),
                i <= n,
                views(seen@) == (base + label_entries(values@.take(i as int), records)).map_values(|e: LabelEntry| e.label),
                item_views(items@) == first_entries(base + label_entries(values@.take(i as int), records)).map_values(
                    |e: LabelEntry| label_item(e),
                ),
            decreases n - i,
        {
            let ghost es = base + label_entries(values@.take(i as int), records);
            assert(values@.take(i + 1).drop_last() == values@.take(i as int));
            assert(values@.take(i + 1).last() == values@[i as int]);
            match &values[i].constructor.variant {
                ValueConstructorVariant::ModuleFn { field_map: Some(fm), .. } => {
                    if !records {
                        suggest_fields(&fm.fields, false, &mut seen, &mut items, Ghost(es));
                        assert(base + label_entries(values@.take(i + 1), records) =~= es + field_entries(fm.fields@, false));
                    } else {
                        assert(base + label_entries(values@.take(i + 1), records) =~= es);
                    }
                },
                ValueConstructorVariant::Record { field_map: Some(fm), .. } => {
                    if records {
                        suggest_fields(&fm.fields, true, &mut seen, &mut items, Ghost(es));
                        assert(base + label_entries(values@.take(i + 1), records) =~= es + field_entries(fm.fields@, true));
                    } else {
                        assert(base + label_entries(values@.take(i + 1), records) =~= es);
                    }
                },
                _ => {
                    assert(base + label_entries(values@.take(i + 1), records) =~= es);
                },
            }
            i = i + 1;
        }
        assert(values@.take(n as int) == values@);
        assert(base + label_entries(values@, records) == if records { fn_entries + label_entries(values@, true) } else { fn_entries });
        pass = pass + 1;
    }
    Some(sort_by_label(items))
}


fn copy_strings(v: &Vec<String>) -> (r: Vec<String>)
    ensures
        views(r@) == views(v@),
{
    let mut out: Vec<String> = Vec::new();
    let n = v.len();
    let mut i: usize = 0;
    while i < n
        invariant
            n == v@.len(),
            i <= n,
            views(out@) == views(v@.take(i as int)),
        decreases n - i,
    {
        let ghost prev = out@;
        out.push(v[i].clone());
        assert(views(out@) =~= views(prev).push(v@[i as int]@));
        assert(v@.take(i + 1) == v@.take(i as int).push(v@[i as int]));
        assert(views(v@.take(i + 1)) =~= views(v@.take(i as int)).push(v@[i as int]@));
        i = i + 1;
    }
    assert(v@.take(n as int) == v@);
    out
}

/// What completion offers at a node of the kind found under the cursor.
pub open spec fn completion_result(
    compiler: Option<LspProject>,
    found: Option<Located>,
    type_info: Option<TypeInfo>,
) -> Option<Seq<ItemView>> {
    match found {
        None => match compiler {
            Some(c) => Some(import_completions(c.modules@, views(c.importable_modules@), Seq::empty())),
            None => None,
        },
        Some(Located::Definition(Definition::Use { module, .. })) => match compiler {
            Some(c) => Some(import_completions(c.modules@, views(c.importable_modules@), views(module@))),
            None => None,
        },
        Some(Located::Expression(_)) => match (compiler, type_info) {
            (Some(c), Some(t)) => Some(expression_completions(t, views(c.importable_modules@))),
            _ => None,
        },
        Some(Located::Pattern { type_text }) => match type_info {
            Some(t) => Some(pattern_completions(t, type_text@)),
            None => None,
        },
        Some(Located::Annotation) => match type_info {
            Some(t) => Some(sort_items(type_items(t.types@))),
            None => None,
        },
        Some(Located::Argument) => match type_info {
            Some(t) => Some(argument_completions(t)),
            None => None,
        },
        Some(Located::Definition(_)) => None,
    }
}

impl Server {
    /// Completion at the cursor: `found` is the node under it (if any) and
    /// `type_info` what type checking learnt of the cursor's module (if it compiled).
    /// With no node, module paths are offered; in an import, the module paths that
    /// continue the path typed; in an expression, values and modules; in a pattern,
    /// constructors of the pattern's type; in an annotation, types; in an argument,
    /// labels. Other definitions get nothing.
    pub fn completion(&self, found: Option<&Located>, type_info: Option<&TypeInfo>) -> (r: Option<
        Vec<CompletionItem>,
    >)
        requires
            type_info matches Some(t) ==> values_bounded(t.values@),
        ensures
            match completion_result(
                self.compiler,
                match found {
                    Some(l) => Some(*l),
                    None => None,
                },
                match type_info {
                    Some(t) => Some(*t),
                    None => None,
                },
            ) {
                Some(items) => r matches Some(v) && item_views(v@) == items,
                None => r is None,
            },
    {
        match found {
            None => {
                let compiler = match &self.compiler {
                    Some(c) => c,
                    None => return None,
                };
                let empty: Vec<String> = Vec::new();
                assert(views(empty@) =~= Seq::<Seq<char>>::empty());
                Some(completion_for_import(&compiler.modules, copy_strings(&compiler.importable_modules), &empty))
            },
            Some(Located::Definition(Definition::Use { module, .. })) => {
                let compiler = match &self.compiler {
                    Some(c) => c,
                    None => return None,
                };
                Some(completion_for_import(&compiler.modules, copy_strings(&compiler.importable_modules), module))
            },
            Some(Located::Expression(_)) => {
                match (&self.compiler, type_info) {
                    (Some(c), Some(t)) => completion_for_expression(t, &c.importable_modules),
                    _ => None,
                }
            },
            Some(Located::Pattern { type_text }) => {
                let t = match type_info {
                    Some(t) => t,
                    None => return None,
                };
                completion_for_pattern(t, type_text.as_str())
            },
            Some(Located::Annotation) => {
                let t = match type_info {
                    Some(t) => t,
                    None => return None,
                };
                completion_for_annotation(t)
            },
            Some(Located::Argument) => {
                let t = match type_info {
                    Some(t) => t,
                    None => return None,
                };
                completion_for_argument(t)
            },
            Some(Located::Definition(_)) => None,
        }
    }
}

} // verus!
