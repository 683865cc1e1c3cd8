//! Workspace symbols: the named definitions of all compiled modules that match a query.
use vstd::prelude::*;
use vstd::utf8::{encode_utf8, is_ascii_chars};
use crate::ast::{CheckedModule, Definition, RecordConstructor};
use crate::server::{LspProject, Server};
use crate::span::{LineNumbers, Range, Span, is_resolvable, range_of, resolvable, span_to_lsp_range};
use crate::text::{
    ascii_lowercase, ascii_uppercase, contains_str, lemma_ascii_case, lowercase, occurs_at, occurs_in,
    to_lowercase,
};

verus! {

/// The kind of a symbol.
#[derive(Clone, Copy, Debug, PartialEq, Eq)]
pub enum SymbolKind {
    Function,
    Class,
    Constant,
    Constructor,
}

/// A symbol found in the workspace: its name, kind, and where it is defined.
#[derive(Debug, PartialEq, Eq)]
pub struct SymbolInformation {
    pub name: String,
    pub kind: SymbolKind,
    pub uri: String,
    pub range: Range,
}

/// Case-insensitive substring match: an empty query matches every name.
pub open spec fn query_matches(name: Seq<char>, query: Seq<char>) -> bool {
    query.len() == 0 || occurs_in(encode_utf8(lowercase(name)), encode_utf8(lowercase(query)))
}

/// An empty query matches every name, so every named definition is listed.
pub proof fn lemma_empty_query_matches(name: Seq<char>)
    ensures
        query_matches(name, Seq::empty()),
{
}

/// Matching ignores case: names or queries with the same lowercase form match alike.
pub proof fn lemma_query_matching_ignores_case(n1: Seq<char>, n2: Seq<char>, q1: Seq<char>, q2: Seq<char>)
    requires
        lowercase(n1) == lowercase(n2),
        lowercase(q1) == lowercase(q2),
        q1.len() > 0,
        q2.len() > 0,
    ensures
        query_matches(n1, q1) == query_matches(n2, q2),
{
}

/// Case-insensitive substring match of ASCII text, lowercasing `A` to `Z`.
pub open spec fn ascii_query_matches(name: Seq<char>, query: Seq<char>) -> bool {
    query.len() == 0 || occurs_in(
        encode_utf8(ascii_lowercase(name)),
        encode_utf8(ascii_lowercase(query)),
    )
}

/// Matching ASCII text ignores case: uppercasing the name or lowercasing the query
/// changes nothing.
pub proof fn lemma_ascii_matching_ignores_case(name: Seq<char>, query: Seq<char>)
    ensures
        ascii_query_matches(name, query) == ascii_query_matches(
            ascii_uppercase(name),
            ascii_lowercase(query),
        ),
{
    lemma_ascii_case(name);
    lemma_ascii_case(query);
}

/// A name that matches an ASCII query matches every part of it.
pub proof fn lemma_ascii_matching_narrows(name: Seq<char>, query: Seq<char>, part: Seq<char>, k: int)
    requires
        is_ascii_chars(query),
        0 <= k,
        k + part.len() <= query.len(),
        query.subrange(k, k + part.len()) == part,
        ascii_query_matches(name, query),
    ensures
        ascii_query_matches(name, part),
{
    if part.len() > 0 {
        lemma_ascii_case(query);
        lemma_ascii_case(part);
        let ql = ascii_lowercase(query);
        let pl = ascii_lowercase(part);
        assert(is_ascii_chars(part)) by {
            assert forall|i: int| 0 <= i < part.len() implies '\0' <= #[trigger] part[i] <= '\u{7f}' by {
                assert(part[i] == query[k + i]);
            }
        }
        vstd::utf8::is_ascii_chars_encode_utf8(ql);
        vstd::utf8::is_ascii_chars_encode_utf8(pl);
        let nb = encode_utf8(ascii_lowercase(name));
        let qb = encode_utf8(ql);
        let pb = encode_utf8(pl);
        let i = choose|i: int| occurs_at(nb, qb, i);
        assert(occurs_at(nb, pb, i + k)) by {
            assert forall|j: int| 0 <= j < pb.len() implies nb.subrange(i + k, i + k + pb.len())[j] == pb[j] by {
                assert(pl[j] == ql[k + j]);
                assert(pb[j] == pl[j] as u8);
                assert(qb[k + j] == ql[k + j] as u8);
                assert(nb.subrange(i, i + qb.len())[k + j] == qb[k + j]);
            }
            assert(nb.subrange(i + k, i + k + pb.len()) =~= pb);
        }
    }
}

/// Whether `name` matches `query`, ignoring case; an empty query matches everything.
pub fn matches_query(name: &str, query: &str) -> (r: bool)
    ensures
        r == query_matches(name@, query@),
        is_ascii_chars(name@) && is_ascii_chars(query@) ==> r == ascii_query_matches(name@, query@),
{
    if query.is_empty() {
        return true;
    }
    let n = to_lowercase(name);
    let q = to_lowercase(query);
    contains_str(n.as_str(), q.as_str())
}

/// A symbol before its location is turned into an editor range.
pub struct SymbolEntry {
    pub name: String,
    pub kind: SymbolKind,
    pub span: Span,
}

pub open spec fn entry_if(name: String, kind: SymbolKind, span: Span, query: Seq<char>) -> Seq<
    SymbolEntry,
> {
    if query_matches(name@, query) {
        seq![SymbolEntry { name, kind, span }]
    } else {
        Seq::empty()
    }
}

pub open spec fn constructor_entries(s: Seq<RecordConstructor>, query: Seq<char>) -> Seq<
    SymbolEntry,
>
    decreases s.len(),
{
    if s.len() == 0 {
        Seq::empty()
    } else {
        constructor_entries(s.drop_last(), query) + entry_if(
            s.last().name,
            SymbolKind::Constructor,
            s.last().location,
            query,
        )
    }
}

/// The symbols a definition contributes: functions, tests and benchmarks as
/// functions; data types, aliases and validators as classes; constants as constants;
/// a data type's constructors as constructors; imports nothing. Each only where its
/// name matches the query.
pub open spec fn definition_entries(d: Definition, query: Seq<char>) -> Seq<SymbolEntry> {
    match d {
        Definition::Fn(f) => entry_if(f.name, SymbolKind::Function, f.location, query),
        Definition::DataType { location, name, constructors } => entry_if(
            name,
            SymbolKind::Class,
            location,
            query,
        ) + constructor_entries(constructors@, query),
        Definition::TypeAlias { location, alias, .. } => entry_if(
            alias,
            SymbolKind::Class,
            location,
            query,
        ),
        Definition::ModuleConstant { location, name, .. } => entry_if(
            name,
            SymbolKind::Constant,
            location,
            query,
        ),
        Definition::Validator(v) => entry_if(v.name, SymbolKind::Class, v.location, query),
        Definition::Test(f) => entry_if(f.name, SymbolKind::Function, f.location, query),
        Definition::Benchmark(f) => entry_if(f.name, SymbolKind::Function, f.location, query),
        Definition::Use { .. } => Seq::empty(),
    }
}

pub open spec fn definitions_entries(s: Seq<Definition>, query: Seq<char>) -> Seq<SymbolEntry>
    decreases s.len(),
{
    if s.len() == 0 {
        Seq::empty()
    } else {
        definitions_entries(s.drop_last(), query) + definition_entries(s.last(), query)
    }
}

/// The symbol of an entry, located in the document `uri` whose text is `bytes`.
pub open spec fn symbol_of(bytes: Seq<u8>, uri: String, e: SymbolEntry) -> SymbolInformation {
    SymbolInformation { name: e.name, kind: e.kind, uri, range: range_of(bytes, e.span) }
}

pub open spec fn symbols_of(bytes: Seq<u8>, uri: String, es: Seq<SymbolEntry>) -> Seq<
    SymbolInformation,
> {
    es.map_values(|e: SymbolEntry| symbol_of(bytes, uri, e))
}

/// Whether both ends of every entry's span have a line in `bytes`.
pub open spec fn entries_resolvable(bytes: Seq<u8>, es: Seq<SymbolEntry>) -> bool {
    forall|i: int|
        0 <= i < es.len() ==> resolvable(bytes, #[trigger] es[i].span.start) && resolvable(
            bytes,
            es[i].span.end,
        )
}

fn push_if(
    out: &mut Vec<SymbolEntry>,
    name: &String,
    kind: SymbolKind,
    span: Span,
    query: &str,
)
    ensures
        final(out)@ == old(out)@ + entry_if(*name, kind, span, query@),
{
    if matches_query(name.as_str(), query) {
        out.push(SymbolEntry { name: name.clone(), kind, span });
    }
}

/// Collects the symbols of one definition that match `query`.
pub fn collect_definition_symbols(definition: &Definition, query: &str, out: &mut Vec<SymbolEntry>)
    ensures
        final(out)@ == old(out)@ + definition_entries(*definition, query@),
{
    match definition {
        Definition::Fn(function) => {
            push_if(out, &function.name, SymbolKind::Function, function.location, query);
        },
        Definition::DataType { location, name, constructors } => {
            push_if(out, name, SymbolKind::Class, *location, query);
            let ghost start = out@;
            let n = constructors.len();
            let mut i: usize = 0;
            while i < n
                invariant
                    n == constructors@.len(),
                    i <= n,
                    out@ == start + constructor_entries(constructors@.take(i as int), query@),
                decreases n - i,
            {
                assert(constructors@.take(i + 1).drop_last() == constructors@.take(i as int));
                push_if(
                    out,
                    &constructors[i].name,
                    SymbolKind::Constructor,
                    constructors[i].location,
                    query,
                );
                i = i + 1;
            }
            assert(constructors@.take(n as int) == constructors@);
        },
        Definition::TypeAlias { location, alias, .. } => {
            push_if(out, alias, SymbolKind::Class, *location, query);
        },
        Definition::ModuleConstant { location, name, .. } => {
            push_if(out, name, SymbolKind::Constant, *location, query);
        },
        Definition::Validator(validator) => {
            push_if(out, &validator.name, SymbolKind::Class, validator.location, query);
        },
        Definition::Test(test) => {
            push_if(out, &test.name, SymbolKind::Function, test.location, query);
        },
        Definition::Benchmark(benchmark) => {
            push_if(out, &benchmark.name, SymbolKind::Function, benchmark.location, query);
        },
        Definition::Use { .. } => {},
    }
}

/// The symbol entries of a module.
pub open spec fn module_entries(m: CheckedModule, query: Seq<char>) -> Seq<SymbolEntry> {
    definitions_entries(m.definitions@, query)
}

/// The symbols of a module located in its document; none for a module without a
/// document address.
pub open spec fn module_symbols(m: CheckedModule, query: Seq<char>) -> Seq<SymbolInformation> {
    match m.uri {
        Some(uri) => symbols_of(encode_utf8(m.code@), uri, module_entries(m, query)),
        None => Seq::empty(),
    }
}

/// The symbols of a list of modules, in order.
pub open spec fn modules_symbols(ms: Seq<CheckedModule>, query: Seq<char>) -> Seq<
    SymbolInformation,
>
    decreases ms.len(),
{
    if ms.len() == 0 {
        Seq::empty()
    } else {
        modules_symbols(ms.drop_last(), query) + module_symbols(ms.last(), query)
    }
}

/// The symbols of a module are those of its definitions, one after another, each
/// located in the module's document; the symbols of several modules are those of
/// each module, one after another.
pub proof fn lemma_symbols_per_definition(
    bytes: Seq<u8>,
    uri: String,
    defs: Seq<Definition>,
    d: Definition,
    ms: Seq<CheckedModule>,
    m: CheckedModule,
    query: Seq<char>,
)
    ensures
        symbols_of(bytes, uri, definitions_entries(defs.push(d), query)) == symbols_of(
            bytes,
            uri,
            definitions_entries(defs, query),
        ) + symbols_of(bytes, uri, definition_entries(d, query)),
        modules_symbols(ms.push(m), query) == modules_symbols(ms, query) + module_symbols(m, query),
{
    assert(defs.push(d).drop_last() == defs);
    assert(ms.push(m).drop_last() == ms);
    let a = definitions_entries(defs, query);
    let b = definition_entries(d, query);
    assert(symbols_of(bytes, uri, a + b) =~= symbols_of(bytes, uri, a) + symbols_of(bytes, uri, b));
}

proof fn lemma_contains_concat<T>(a: Seq<T>, b: Seq<T>, x: T)
    requires
        a.contains(x) || b.contains(x),
    ensures
        (a + b).contains(x),
{
    if a.contains(x) {
        let k = choose|k: int| 0 <= k < a.len() && a[k] == x;
        assert((a + b)[k] == x);
    } else {
        let k = choose|k: int| 0 <= k < b.len() && b[k] == x;
        assert((a + b)[a.len() + k] == x);
    }
}

proof fn lemma_constructor_entries_contain(cs: Seq<RecordConstructor>, k: int, query: Seq<char>)
    requires
        0 <= k < cs.len(),
        query_matches(cs[k].name@, query),
    ensures
        constructor_entries(cs, query).contains(
            SymbolEntry { name: cs[k].name, kind: SymbolKind::Constructor, span: cs[k].location },
        ),
    decreases cs.len(),
{
    let e = SymbolEntry { name: cs[k].name, kind: SymbolKind::Constructor, span: cs[k].location };
    let t = cs.drop_last();
    let last = entry_if(cs.last().name, SymbolKind::Constructor, cs.last().location, query);
    if k == cs.len() - 1 {
        assert(last[0] == e);
        lemma_contains_concat(constructor_entries(t, query), last, e);
    } else {
        assert(t[k] == cs[k]);
        lemma_constructor_entries_contain(t, k, query);
        lemma_contains_concat(constructor_entries(t, query), last, e);
    }
}

/// The symbol a definition is listed under, by the kind its doc names: functions,
/// tests and benchmarks as functions; data types, aliases and validators as
/// classes; constants as constants; imports under none.
pub open spec fn own_symbol(d: Definition) -> Option<SymbolEntry> {
    match d {
        Definition::Fn(f) => Some(SymbolEntry { name: f.name, kind: SymbolKind::Function, span: f.location }),
        Definition::Test(f) => Some(SymbolEntry { name: f.name, kind: SymbolKind::Function, span: f.location }),
        Definition::Benchmark(f) => Some(
            SymbolEntry { name: f.name, kind: SymbolKind::Function, span: f.location },
        ),
        Definition::DataType { location, name, .. } => Some(
            SymbolEntry { name, kind: SymbolKind::Class, span: location },
        ),
        Definition::TypeAlias { location, alias, .. } => Some(
            SymbolEntry { name: alias, kind: SymbolKind::Class, span: location },
        ),
        Definition::Validator(v) => Some(SymbolEntry { name: v.name, kind: SymbolKind::Class, span: v.location }),
        Definition::ModuleConstant { location, name, .. } => Some(
            SymbolEntry { name, kind: SymbolKind::Constant, span: location },
        ),
        Definition::Use { .. } => None,
    }
}

proof fn lemma_definition_entries_contain(d: Definition, query: Seq<char>, e: SymbolEntry)
    requires
        own_symbol(d) == Some(e) && query_matches(e.name@, query) || (d matches Definition::DataType {
            constructors,
            ..
        } && exists|k: int|
            0 <= k < constructors@.len() && query_matches(constructors@[k].name@, query) && e == (
            SymbolEntry {
                name: constructors@[k].name,
                kind: SymbolKind::Constructor,
                span: constructors@[k].location,
            })),
    ensures
        definition_entries(d, query).contains(e),
{
    if own_symbol(d) == Some(e) && query_matches(e.name@, query) {
        match d {
            Definition::DataType { location, name, constructors } => {
                let own = entry_if(name, SymbolKind::Class, location, query);
                assert(own[0] == e);
                lemma_contains_concat(own, constructor_entries(constructors@, query), e);
            },
            _ => {
                assert(definition_entries(d, query)[0] == e);
            },
        }
    } else {
        match d {
            Definition::DataType { location, name, constructors } => {
                let k = choose|k: int|
                    0 <= k < constructors@.len() && query_matches(constructors@[k].name@, query) && e == (
                    SymbolEntry {
                        name: constructors@[k].name,
                        kind: SymbolKind::Constructor,
                        span: constructors@[k].location,
                    });
                lemma_constructor_entries_contain(constructors@, k, query);
                lemma_contains_concat(
                    entry_if(name, SymbolKind::Class, location, query),
                    constructor_entries(constructors@, query),
                    e,
                );
            },
            _ => {},
        }
    }
}

proof fn lemma_definitions_entries_contain(defs: Seq<Definition>, i: int, query: Seq<char>, e: SymbolEntry)
    requires
        0 <= i < defs.len(),
        definition_entries(defs[i], query).contains(e),
    ensures
        definitions_entries(defs, query).contains(e),
    decreases defs.len(),
{
    let t = defs.drop_last();
    if i == defs.len() - 1 {
        lemma_contains_concat(definitions_entries(t, query), definition_entries(defs.last(), query), e);
    } else {
        assert(t[i] == defs[i]);
        lemma_definitions_entries_contain(t, i, query, e);
        lemma_contains_concat(definitions_entries(t, query), definition_entries(defs.last(), query), e);
    }
}

proof fn lemma_modules_symbols_contain(ms: Seq<CheckedModule>, i: int, query: Seq<char>, x: SymbolInformation)
    requires
        0 <= i < ms.len(),
        module_symbols(ms[i], query).contains(x),
    ensures
        modules_symbols(ms, query).contains(x),
    decreases ms.len(),
{
    let t = ms.drop_last();
    if i == ms.len() - 1 {
        lemma_contains_concat(modules_symbols(t, query), module_symbols(ms.last(), query), x);
    } else {
        assert(t[i] == ms[i]);
        lemma_modules_symbols_contain(t, i, query, x);
        lemma_contains_concat(modules_symbols(t, query), module_symbols(ms.last(), query), x);
    }
}

/// Every named definition of a module with a document address whose name matches
/// the query is listed, under the kind its doc names, with its name and its
/// definition's range in that document; so is each matching constructor of a data
/// type, as a constructor.
pub proof fn lemma_matching_definitions_listed(
    ms: Seq<CheckedModule>,
    mi: int,
    di: int,
    query: Seq<char>,
    e: SymbolEntry,
)
    requires
        0 <= mi < ms.len(),
        ms[mi].uri is Some,
        0 <= di < ms[mi].definitions@.len(),
        own_symbol(ms[mi].definitions@[di]) == Some(e) && query_matches(e.name@, query) || (
        ms[mi].definitions@[di] matches Definition::DataType { constructors, .. } && exists|k: int|
            0 <= k < constructors@.len() && query_matches(constructors@[k].name@, query) && e == (
            SymbolEntry {
                name: constructors@[k].name,
                kind: SymbolKind::Constructor,
                span: constructors@[k].location,
            })),
    ensures
        modules_symbols(ms, query).contains(
            SymbolInformation {
                name: e.name,
                kind: e.kind,
                uri: ms[mi].uri->Some_0,
                range: range_of(encode_utf8(ms[mi].code@), e.span),
            },
        ),
{
    let m = ms[mi];
    let bytes = encode_utf8(m.code@);
    let u = m.uri->Some_0;
    lemma_definition_entries_contain(m.definitions@[di], query, e);
    lemma_definitions_entries_contain(m.definitions@, di, query, e);
    let es = module_entries(m, query);
    let k = choose|k: int| 0 <= k < es.len() && es[k] == e;
    assert(module_symbols(m, query) == symbols_of(bytes, u, es));
    assert(symbols_of(bytes, u, es)[k] == symbol_of(bytes, u, e));
    lemma_modules_symbols_contain(ms, mi, query, symbol_of(bytes, u, e));
}

/// Whether the symbols that match `query` have lines in their module's source, for
/// each module with a document address.
pub open spec fn modules_ready(ms: Seq<CheckedModule>, query: Seq<char>) -> bool {
    forall|i: int|
        0 <= i < ms.len() && (#[trigger] ms[i]).uri is Some ==> entries_resolvable(
            encode_utf8(ms[i].code@),
            module_entries(ms[i], query),
        )
}

/// What a workspace symbol request answers: nothing without a compilation or where
/// no symbol matches; else the matching symbols of every module that has a document
/// address, in order.
pub open spec fn workspace_symbols_answer(compiler: Option<LspProject>, query: Seq<char>) -> Option<
    Seq<SymbolInformation>,
> {
    match compiler {
        None => None,
        Some(c) => if modules_symbols(c.modules@, query).len() == 0 {
            None
        } else {
            Some(modules_symbols(c.modules@, query))
        },
    }
}

/// The symbol entries of one module that match `query`.
fn module_entry_list(module: &CheckedModule, query: &str) -> (r: Vec<SymbolEntry>)
    ensures
        r@ == module_entries(*module, query@),
{
    let mut entries: Vec<SymbolEntry> = Vec::new();
    let n = module.definitions.len();
    let mut i: usize = 0;
    while i < n
        invariant
            n == module.definitions@.len(),
            i <= n,
            entries@ == definitions_entries(module.definitions@.take(i as int), query@),
        decreases n - i,
    {
        assert(module.definitions@.take(i + 1).drop_last() == module.definitions@.take(i as int));
        collect_definition_symbols(&module.definitions[i], query, &mut entries);
        i = i + 1;
    }
    assert(module.definitions@.take(n as int) == module.definitions@);
    entries
}

/// The symbols of one module, located in its document `uri`.
fn module_symbol_list(module: &CheckedModule, uri: &String, query: &str) -> (r: Vec<
    SymbolInformation,
>)
    requires
        entries_resolvable(encode_utf8(module.code@), module_entries(*module, query@)),
    ensures
        r@ == symbols_of(encode_utf8(module.code@), *uri, module_entries(*module, query@)),
{
    let line_numbers = LineNumbers::new(module.code.as_str());
    let entries = module_entry_list(module, query);
    let ghost bytes = encode_utf8(module.code@);
    let mut out: Vec<SymbolInformation> = Vec::new();
    let m = entries.len();
    let mut j: usize = 0;
    while j < m
        invariant
            m == entries@.len(),
            j <= m,
            line_numbers.wf(),
            line_numbers.text() == bytes,
            entries_resolvable(bytes, entries@),
            out@ == symbols_of(bytes, *uri, entries@.take(j as int)),
        decreases m - j,
    {
        let e = &entries[j];
        assert(resolvable(bytes, entries@[j as int].span.start));
        let range = span_to_lsp_range(e.span, &line_numbers);
        out.push(SymbolInformation { name: e.name.clone(), kind: e.kind, uri: uri.clone(), range });
        j = j + 1;
        assert(out@ =~= symbols_of(bytes, *uri, entries@.take(j as int)));
    }
    assert(entries@.take(m as int) == entries@);
    out
}

#[verifier::spinoff_prover]
fn entries_ok(line_numbers: &LineNumbers, entries: &Vec<SymbolEntry>) -> (r: bool)
    requires
        line_numbers.wf(),
    ensures
        r == entries_resolvable(line_numbers.text(), entries@),
{
    let n = entries.len();
    let mut k: usize = 0;
    while k < n
        invariant
            n == entries@.len(),
            k <= n,
            line_numbers.wf(),
            forall|j: int|
                0 <= j < k ==> resolvable(line_numbers.text(), #[trigger] entries@[j].span.start)
                    && resolvable(line_numbers.text(), entries@[j].span.end),
        decreases n - k,
    {
        let span = entries[k].span;
        if !is_resolvable(line_numbers, span.start) || !is_resolvable(line_numbers, span.end) {
            assert(!(resolvable(line_numbers.text(), entries@[k as int].span.start) && resolvable(
                line_numbers.text(),
                entries@[k as int].span.end,
            )));
            return false;
        }
        k = k + 1;
    }
    true
}

/// Whether the symbols that match `query` can be placed in every module with a
/// document address, which `workspace_symbol` needs.
pub fn symbols_ready(modules: &Vec<CheckedModule>, query: &str) -> (r: bool)
    ensures
        r == modules_ready(modules@, query@),
{
    let ghost ms = modules@;
    let n = modules.len();
    let mut i: usize = 0;
    while i < n
        invariant
            n == ms.len(),
            ms == modules@,
            i <= n,
            forall|a: int|
                0 <= a < i && (#[trigger] ms[a]).uri is Some ==> entries_resolvable(
                    encode_utf8(ms[a].code@),
                    module_entries(ms[a], query@),
                ),
        decreases n - i,
    {
        let module = &modules[i];
        if module.uri.is_some() {
            let line_numbers = LineNumbers::new(module.code.as_str());
            let entries = module_entry_list(module, query);
            if !entries_ok(&line_numbers, &entries) {
                assert(ms[i as int].uri is Some);
                return false;
            }
        }
        i = i + 1;
    }
    true
}

impl Server {
    /// All symbols of all compiled modules that match `query` (case-insensitively;
    /// an empty query matches all), skipping modules without a document address.
    /// `None` where nothing is compiled or no symbol matches.
    pub fn workspace_symbol(&self, query: String) -> (r: Option<Vec<SymbolInformation>>)
        requires
            self.compiler is Some ==> modules_ready(self.compiler->Some_0.modules@, query@),
        ensures
            match workspace_symbols_answer(self.compiler, query@) {
                None => r is None,
                Some(s) => r matches Some(v) && v@ == s,
            },
    {
        let compiler = match &self.compiler {
            Some(c) => c,
            None => return None,
        };
        let ghost ms = compiler.modules@;
        let mut symbols: Vec<SymbolInformation> = Vec::new();
        let n = compiler.modules.len();
        let mut i: usize = 0;
        while i < n
            invariant
                n == ms.len(),
                ms == compiler.modules@,
                ms == self.compiler->Some_0.modules@,
                i <= n,
                modules_ready(ms, query@),
                symbols@ == modules_symbols(ms.take(i as int), query@),
            decreases n - i,
        {
            assert(ms.take(i + 1).drop_last() == ms.take(i as int));
            let module = &compiler.modules[i];
            match &module.uri {
                Some(uri) => {
                    assert(ms[i as int].uri is Some);
                    let mut list = module_symbol_list(module, uri, query.as_str());
                    symbols.append(&mut list);
                },
                None => {
                    assert(symbols@ == modules_symbols(ms.take(i as int), query@) + module_symbols(
                        ms[i as int],
                        query@,
                    ));
                },
            }
            i = i + 1;
        }
        assert(ms.take(n as int) == ms);
        if symbols.len() == 0 {
            None
        } else {
            Some(symbols)
        }
    }

    /// The workspace symbols where every matching symbol can be placed;
    /// `None` where one cannot, and the answer of `workspace_symbol` otherwise.
    pub fn workspace_symbol_checked(&self, query: String) -> (r: Option<Option<Vec<SymbolInformation>>>)
        ensures
            r is None <==> (self.compiler is Some && !modules_ready(
                self.compiler->Some_0.modules@,
                query@,
            )),
            r matches Some(answer) ==> match workspace_symbols_answer(self.compiler, query@) {
                None => answer is None,
                Some(s) => answer matches Some(v) && v@ == s,
            },
    {
        if let Some(c) = &self.compiler {
            if !symbols_ready(&c.modules, query.as_str()) {
                return None;
            }
        }
        Some(self.workspace_symbol(query))
    }
}

} // verus!
