//! Renaming a symbol: where its name is written at the cursor, and the edits that
//! rename it everywhere.
use vstd::prelude::*;
use vstd::slice::slice_subrange;
use vstd::string::StringSliceAdditionalSpecFns;
use vstd::utf8::{encode_utf8, is_char_boundary};
use crate::ast::{CheckedModule, Definition, Expr, Located, definition_location};
use crate::server::{LspProject, Server, module_names_unique};
use crate::span::{LineNumbers, Range, Span, is_resolvable, range_of, resolvable, span_to_lsp_range};
use crate::semantic_tokens::{ident_continue_byte, is_ident_continue};
use crate::text::{bytes_match_at, find_bytes, first_occurrence, occurs_at, occurs_in, str_equal};

verus! {

broadcast use vstd::seq_lib::group_seq_properties;

/// Whether `span` lies within `bytes` and starts and ends on character boundaries,
/// so that the text it covers can be sliced out.
pub open spec fn span_sliceable(bytes: Seq<u8>, span: Span) -> bool {
    &&& span.start <= span.end <= bytes.len()
    &&& is_char_boundary(bytes, span.start as int)
    &&& is_char_boundary(bytes, span.end as int)
}

/// Whether `name` stands at byte `p` of `bytes` as a whole identifier: it occurs
/// there, and no identifier byte comes right before or right after it.
pub open spec fn word_at(bytes: Seq<u8>, name: Seq<u8>, p: int) -> bool {
    &&& occurs_at(bytes, name, p)
    &&& (p == 0 || !ident_continue_byte(bytes[p - 1]))
    &&& (p + name.len() == bytes.len() || !ident_continue_byte(bytes[p + name.len()]))
}

/// Whether `name` stands as a whole identifier at `p` within `span`.
pub open spec fn word_in(bytes: Seq<u8>, span: Span, name: Seq<u8>, p: int) -> bool {
    span.start <= p && p + name.len() <= span.end && word_at(bytes, name, p)
}

/// Whether `p` is the first position within `span` where `name` stands as a whole
/// identifier.
pub open spec fn first_word_in(bytes: Seq<u8>, span: Span, name: Seq<u8>, p: int) -> bool {
    word_in(bytes, span, name, p) && forall|q: int| span.start <= q < p ==> !#[trigger] word_in(
        bytes,
        span,
        name,
        q,
    )
}

/// The span of the first occurrence of `name`'s bytes within `span` of the text.
pub open spec fn identifier_span(bytes: Seq<u8>, span: Span, name: Seq<u8>) -> Option<Span> {
    let text = bytes.subrange(span.start as int, span.end as int);
    if occurs_in(text, name) {
        let offset = choose|i: int| first_occurrence(text, name, i);
        Some(Span { start: (span.start + offset) as usize, end: (span.start + offset + name.len()) as usize })
    } else {
        None
    }
}

proof fn lemma_first_occurrence_exists(hay: Seq<u8>, needle: Seq<u8>, k: int)
    requires
        occurs_at(hay, needle, k),
    ensures
        exists|i: int| 0 <= i <= k && first_occurrence(hay, needle, i),
    decreases k,
{
    if exists|j: int| 0 <= j < k && occurs_at(hay, needle, j) {
        let j = choose|j: int| 0 <= j < k && occurs_at(hay, needle, j);
        lemma_first_occurrence_exists(hay, needle, j);
    } else {
        assert(first_occurrence(hay, needle, k));
    }
}

proof fn lemma_first_occurrence_unique(h: Seq<u8>, n: Seq<u8>, i: int, j: int)
    requires
        first_occurrence(h, n, i),
        first_occurrence(h, n, j),
    ensures
        i == j,
{
}

/// A found name lies within the searched span and covers exactly the name, and no
/// earlier position of the span holds the name.
pub proof fn lemma_identifier_span(bytes: Seq<u8>, span: Span, name: Seq<u8>)
    requires
        span.start <= span.end <= bytes.len(),
        identifier_span(bytes, span, name) is Some,
    ensures
        ({
            let s = identifier_span(bytes, span, name)->Some_0;
            &&& span.start <= s.start <= s.end <= span.end
            &&& s.end - s.start == name.len()
            &&& bytes.subrange(s.start as int, s.end as int) == name
            &&& forall|p: int| span.start <= p < s.start && p + name.len() <= span.end ==> !#[trigger] occurs_at(bytes, name, p)
        }),
{
    let text = bytes.subrange(span.start as int, span.end as int);
    let k = choose|i: int| occurs_at(text, name, i);
    lemma_first_occurrence_exists(text, name, k);
    let offset = choose|i: int| first_occurrence(text, name, i);
    assert(first_occurrence(text, name, offset));
    let s = identifier_span(bytes, span, name)->Some_0;
    assert(bytes.subrange(s.start as int, s.end as int) =~= text.subrange(offset, offset + name.len()));
    assert forall|p: int| span.start <= p < s.start && p + name.len() <= span.end implies !#[trigger] occurs_at(bytes, name, p) by {
        let q = p - span.start;
        assert(!occurs_at(text, name, q));
        assert(bytes.subrange(p, p + name.len()) =~= text.subrange(q, q + name.len()));
    }
}

/// The span of the first occurrence of `name`'s bytes within `span` of `source`.
pub fn find_identifier_span(source: &str, span: Span, name: &str) -> (r: Option<Span>)
    requires
        span_sliceable(source.spec_bytes(), span),
    ensures
        r == identifier_span(source.spec_bytes(), span, name.spec_bytes()),
{
    let bytes = source.as_bytes();
    let text = slice_subrange(bytes, span.start, span.end);
    let nb = name.as_bytes();
    match find_bytes(text, nb) {
        Some(offset) => {
            proof {
                let t = bytes@.subrange(span.start as int, span.end as int);
                assert(first_occurrence(t, nb@, offset as int));
                let o = choose|i: int| first_occurrence(t, nb@, i);
                lemma_first_occurrence_unique(t, nb@, o, offset as int);
            }
            Some(Span { start: span.start + offset, end: span.start + offset + nb.len() })
        },
        None => None,
    }
}

/// The span of the identifier `name` within `span` of the text: the first place
/// there where the name stands as a whole identifier.
pub open spec fn word_span(bytes: Seq<u8>, span: Span, name: Seq<u8>) -> Option<Span> {
    if exists|p: int| #[trigger] word_in(bytes, span, name, p) {
        let p = choose|p: int| first_word_in(bytes, span, name, p);
        Some(Span { start: p as usize, end: (p + name.len()) as usize })
    } else {
        None
    }
}

proof fn lemma_first_word_exists(bytes: Seq<u8>, span: Span, name: Seq<u8>, k: int)
    requires
        word_in(bytes, span, name, k),
    ensures
        exists|p: int| first_word_in(bytes, span, name, p),
    decreases k - span.start,
{
    if exists|q: int| span.start <= q < k && #[trigger] word_in(bytes, span, name, q) {
        let q = choose|q: int| span.start <= q < k && #[trigger] word_in(bytes, span, name, q);
        lemma_first_word_exists(bytes, span, name, q);
    } else {
        assert(first_word_in(bytes, span, name, k));
    }
}

proof fn lemma_first_word_unique(bytes: Seq<u8>, span: Span, name: Seq<u8>, i: int, j: int)
    requires
        first_word_in(bytes, span, name, i),
        first_word_in(bytes, span, name, j),
    ensures
        i == j,
{
    if i < j {
        assert(!word_in(bytes, span, name, i));
    } else if j < i {
        assert(!word_in(bytes, span, name, j));
    }
}

/// A found identifier lies within the searched span, covers exactly the name, stands
/// as a whole identifier, and the name stands as one at no earlier position of the
/// span.
pub proof fn lemma_word_span(bytes: Seq<u8>, span: Span, name: Seq<u8>)
    requires
        span.start <= span.end <= bytes.len(),
        word_span(bytes, span, name) is Some,
    ensures
        ({
            let s = word_span(bytes, span, name)->Some_0;
            &&& span.start <= s.start <= s.end <= span.end
            &&& s.end - s.start == name.len()
            &&& bytes.subrange(s.start as int, s.end as int) == name
            &&& word_at(bytes, name, s.start as int)
            &&& forall|p: int| span.start <= p < s.start ==> !#[trigger] word_in(bytes, span, name, p)
        }),
{
    let k = choose|p: int| #[trigger] word_in(bytes, span, name, p);
    lemma_first_word_exists(bytes, span, name, k);
    let p = choose|p: int| first_word_in(bytes, span, name, p);
    assert(first_word_in(bytes, span, name, p));
}

fn word_at_exec(bytes: &[u8], name: &[u8], p: usize) -> (r: bool)
    requires
        p + name@.len() <= bytes@.len(),
    ensures
        r == word_at(bytes@, name@, p as int),
{
    bytes_match_at(bytes, name, p) && (p == 0 || !is_ident_continue(bytes[p - 1])) && (p + name.len()
        == bytes.len() || !is_ident_continue(bytes[p + name.len()]))
}

/// The span of the identifier `name` within `span` of `source`: the first place there
/// where the name stands as a whole identifier.
pub fn find_word_span(source: &str, span: Span, name: &str) -> (r: Option<Span>)
    requires
        span_sliceable(source.spec_bytes(), span),
    ensures
        r == word_span(source.spec_bytes(), span, name.spec_bytes()),
{
    let bytes = source.as_bytes();
    let nb = name.as_bytes();
    if nb.len() > span.end - span.start {
        assert(!exists|p: int| #[trigger] word_in(bytes@, span, nb@, p));
        return None;
    }
    let last = span.end - nb.len();
    let mut p = span.start;
    loop
        invariant
            span.start <= p <= last,
            bytes@ == source.spec_bytes(),
            nb@ == name.spec_bytes(),
            last + nb@.len() == span.end,
            span.end <= bytes@.len(),
            forall|q: int| span.start <= q < p ==> !#[trigger] word_in(bytes@, span, nb@, q),
        decreases last - p,
    {
        if word_at_exec(bytes, nb, p) {
            proof {
                assert(word_in(bytes@, span, nb@, p as int));
                assert(first_word_in(bytes@, span, nb@, p as int));
                let o = choose|q: int| first_word_in(bytes@, span, nb@, q);
                lemma_first_word_unique(bytes@, span, nb@, o, p as int);
            }
            return Some(Span { start: p, end: p + nb.len() });
        }
        if p == last {
            assert(!exists|q: int| #[trigger] word_in(bytes@, span, nb@, q));
            return None;
        }
        p = p + 1;
    }
}

/// Whether `span` of `source` can be sliced out.
pub fn span_is_sliceable(source: &str, span: Span) -> (r: bool)
    ensures
        r == span_sliceable(source.spec_bytes(), span),
{
    let len = source.as_bytes().len();
    span.start <= span.end && span.end <= len && source.is_char_boundary(span.start)
        && source.is_char_boundary(span.end)
}

/// The name a definition is known by; imports have none.
pub open spec fn def_name_of(def: Definition) -> Option<String> {
    match def {
        Definition::Fn(f) => Some(f.name),
        Definition::DataType { name, .. } => Some(name),
        Definition::TypeAlias { alias, .. } => Some(alias),
        Definition::ModuleConstant { name, .. } => Some(name),
        Definition::Validator(v) => Some(v.name),
        Definition::Test(t) => Some(t.name),
        Definition::Benchmark(b) => Some(b.name),
        Definition::Use { .. } => None,
    }
}

/// The name of a definition.
pub fn def_name(def: &Definition) -> (r: Option<&String>)
    ensures
        match r {
            Some(n) => def_name_of(*def) == Some(*n),
            None => def_name_of(*def) is None,
        },
{
    match def {
        Definition::Fn(f) => Some(&f.name),
        Definition::DataType { name, .. } => Some(name),
        Definition::TypeAlias { alias, .. } => Some(alias),
        Definition::ModuleConstant { name, .. } => Some(name),
        Definition::Validator(v) => Some(&v.name),
        Definition::Test(t) => Some(&t.name),
        Definition::Benchmark(b) => Some(&b.name),
        Definition::Use { .. } => None,
    }
}

/// The span of a node's identifier: a definition's name within the definition, or a
/// variable's name within the variable; other nodes have none.
pub open spec fn node_identifier_span(bytes: Seq<u8>, node: Located) -> Option<Span> {
    match node {
        Located::Definition(def) => match def_name_of(def) {
            Some(name) => word_span(bytes, definition_location(def), encode_utf8(name@)),
            None => None,
        },
        Located::Expression(Expr::Var { name, location, .. }) => word_span(
            bytes,
            location,
            encode_utf8(name@),
        ),
        _ => None,
    }
}

/// Whether the span searched for a node's identifier can be sliced out.
pub open spec fn node_sliceable(bytes: Seq<u8>, node: Located) -> bool {
    match node {
        Located::Definition(def) => def_name_of(def) is Some ==> span_sliceable(bytes, definition_location(def)),
        Located::Expression(Expr::Var { location, .. }) => span_sliceable(bytes, location),
        _ => true,
    }
}

/// The span of the identifier of a node.
pub fn identifier_span_for_node(node: &Located, source: &str) -> (r: Option<Span>)
    requires
        node_sliceable(source.spec_bytes(), *node),
    ensures
        r == node_identifier_span(source.spec_bytes(), *node),
{
    match node {
        Located::Definition(def) => {
            let name = match def_name(def) {
                Some(n) => n,
                None => return None,
            };
            find_word_span(source, def.location(), name.as_str())
        },
        Located::Expression(Expr::Var { name, location, .. }) => find_word_span(
            source,
            *location,
            name.as_str(),
        ),
        _ => None,
    }
}

/// Whether the identifier of `node` can be searched in `source` and, where found,
/// placed by the line table, which `prepare_rename` needs of the node at the cursor.
pub fn node_ready(source: &str, node: &Located) -> (r: bool)
    ensures
        r == node_identifier_ready(source.spec_bytes(), *node),
{
    let sliceable = match node {
        Located::Definition(def) => match def_name(def) {
            Some(_) => span_is_sliceable(source, def.location()),
            None => true,
        },
        Located::Expression(Expr::Var { location, .. }) => span_is_sliceable(source, *location),
        _ => true,
    };
    if !sliceable {
        return false;
    }
    match identifier_span_for_node(node, source) {
        Some(s) => {
            let line_numbers = LineNumbers::new(source);
            is_resolvable(&line_numbers, s.start) && is_resolvable(&line_numbers, s.end)
        },
        None => true,
    }
}

/// The symbol to rename: its name, the module that defines it (where known), and the
/// span of its definition.
pub struct SymbolTarget {
    pub name: String,
    pub def_module: Option<String>,
    pub def_span: Span,
}

/// The first compiled module of that name.
pub open spec fn module_named(ms: Seq<CheckedModule>, name: Seq<char>) -> Option<CheckedModule>
    decreases ms.len(),
{
    if ms.len() == 0 {
        None
    } else if ms[0].name@ == name {
        Some(ms[0])
    } else {
        module_named(ms.drop_first(), name)
    }
}

proof fn lemma_module_named_at(ms: Seq<CheckedModule>, i: int)
    requires
        module_names_unique(ms),
        0 <= i < ms.len(),
    ensures
        module_named(ms, ms[i].name@) == Some(ms[i]),
    decreases i,
{
    if i > 0 {
        assert(ms[0].name@ != ms[i].name@);
        let rest = ms.drop_first();
        assert forall|a: int, b: int| 0 <= a < b < rest.len() implies (#[trigger] rest[a]).name@
            != (#[trigger] rest[b]).name@ by {
            assert(rest[a] == ms[a + 1] && rest[b] == ms[b + 1]);
        }
        lemma_module_named_at(rest, i - 1);
        assert(rest[i - 1] == ms[i]);
    }
}

/// In a well-formed project, where modules are keyed by name, the module found
/// under a name is the one that has it, wherever it stands.
pub proof fn lemma_module_named_keyed(c: LspProject, i: int)
    requires
        c.wf(),
        0 <= i < c.modules@.len(),
    ensures
        module_named(c.modules@, c.modules@[i].name@) == Some(c.modules@[i]),
{
    lemma_module_named_at(c.modules@, i);
}

fn find_module(ms: &Vec<CheckedModule>, name: &str) -> (r: Option<usize>)
    ensures
        match r {
            Some(i) => i < ms@.len() && module_named(ms@, name@) == Some(ms@[i as int]),
            None => module_named(ms@, name@) is None,
        },
{
    let n = ms.len();
    let mut i: usize = 0;
    while i < n
        invariant
            n == ms@.len(),
            i <= n,
            module_named(ms@, name@) == module_named(ms@.skip(i as int), name@),
        decreases n - i,
    {
        assert(ms@.skip(i as int)[0] == ms@[i as int]);
        assert(ms@.skip(i as int).drop_first() == ms@.skip(i + 1));
        if str_equal(ms[i].name.as_str(), name) {
            return Some(i);
        }
        i = i + 1;
    }
    assert(ms@.skip(n as int).len() == 0);
    None
}

/// Whether the target is defined in a compiled module of another package; such
/// symbols are not renamed.
pub open spec fn from_dependency(c: LspProject, target: SymbolTarget) -> bool {
    match target.def_module {
        Some(dm) => match module_named(c.modules@, dm@) {
            Some(m) => m.package@ != c.own_package@,
            None => false,
        },
        None => false,
    }
}

fn is_from_dependency(c: &LspProject, target: &SymbolTarget) -> (r: bool)
    ensures
        r == from_dependency(*c, *target),
{
    match &target.def_module {
        Some(dm) => match find_module(&c.modules, dm.as_str()) {
            Some(i) => !str_equal(c.modules[i].package.as_str(), c.own_package.as_str()),
            None => false,
        },
        None => false,
    }
}

/// What prepare-rename answers: where there is a compiled project, a module, a
/// target not from a dependency and a node with an identifier, the range of that
/// identifier.
pub open spec fn prepare_rename_result(
    compiler: Option<LspProject>,
    module: Option<CheckedModule>,
    target: Option<SymbolTarget>,
    node: Option<Located>,
) -> Option<Range> {
    match (compiler, module, target) {
        (Some(c), Some(m), Some(t)) => if from_dependency(c, t) {
            None
        } else {
            match node {
                Some(n) => match node_identifier_span(encode_utf8(m.code@), n) {
                    Some(s) => Some(range_of(encode_utf8(m.code@), s)),
                    None => None,
                },
                None => None,
            }
        },
        _ => None,
    }
}

/// Whether the identifier of `node` can be searched in `bytes` and, where found,
/// placed by the line table.
pub open spec fn node_identifier_ready(bytes: Seq<u8>, node: Located) -> bool {
    &&& node_sliceable(bytes, node)
    &&& node_identifier_span(bytes, node) matches Some(s) ==> resolvable(bytes, s.start) && resolvable(
        bytes,
        s.end,
    )
}

/// What prepare-rename needs: where it reaches the node at the cursor (a compiled
/// project, a module, a target not from a dependency and a node), that the node's
/// identifier can be searched and placed.
pub open spec fn prepare_rename_ready(
    compiler: Option<LspProject>,
    module: Option<CheckedModule>,
    target: Option<SymbolTarget>,
    node: Option<Located>,
) -> bool {
    match (compiler, module, target, node) {
        (Some(c), Some(m), Some(t), Some(n)) => !from_dependency(c, t) ==> node_identifier_ready(
            encode_utf8(m.code@),
            n,
        ),
        _ => true,
    }
}

/// What rename needs: where it reaches the definition site (a compiled project, a
/// module and a target not from a dependency), that the site can be searched and
/// placed.
pub open spec fn rename_ready(
    compiler: Option<LspProject>,
    module: Option<CheckedModule>,
    target: Option<SymbolTarget>,
) -> bool {
    match (compiler, module, target) {
        (Some(c), Some(m), Some(t)) => !from_dependency(c, t) ==> definition_site_ready(c, m, t),
        _ => true,
    }
}

pub open spec fn opt<T>(o: Option<&T>) -> Option<T> {
    match o {
        Some(x) => Some(*x),
        None => None,
    }
}

impl Server {
    /// Answers whether the symbol at the cursor can be renamed, with the range of its
    /// identifier. `module` is the cursor's module, `target` the symbol found at the
    /// cursor and `node` the node at the cursor.
    pub fn prepare_rename(
        &self,
        module: Option<&CheckedModule>,
        target: Option<&SymbolTarget>,
        node: Option<&Located>,
    ) -> (r: Option<Range>)
        requires
            prepare_rename_ready(self.compiler, opt(module), opt(target), opt(node)),
        ensures
            r == prepare_rename_result(self.compiler, opt(module), opt(target), opt(node)),
    {
        let compiler = match &self.compiler {
            Some(c) => c,
            None => return None,
        };
        let module = match module {
            Some(m) => m,
            None => return None,
        };
        let target = match target {
            Some(t) => t,
            None => return None,
        };
        if is_from_dependency(compiler, target) {
            return None;
        }
        let line_numbers = LineNumbers::new(module.code.as_str());
        match node {
            Some(n) => match identifier_span_for_node(n, module.code.as_str()) {
                Some(name_span) => Some(span_to_lsp_range(name_span, &line_numbers)),
                None => None,
            },
            None => None,
        }
    }
}


/// A reference to the symbol: the document and the range of the name there.
pub struct Location {
    pub uri: String,
    pub range: Range,
}

/// Replace the text of `range` with `new_text`.
pub struct TextEdit {
    pub range: Range,
    pub new_text: String,
}

/// The edits of one document.
pub struct DocumentEdits {
    pub uri: String,
    pub edits: Vec<TextEdit>,
}

/// The edits of a rename, grouped by document.
pub struct WorkspaceEdit {
    pub changes: Vec<DocumentEdits>,
}

/// Edits as documents with their edited ranges, in order.
pub type EditGroups = Seq<(Seq<char>, Seq<Range>)>;

/// The position of the first group of document `uri`, or -1.
pub open spec fn group_pos(g: EditGroups, uri: Seq<char>) -> int
    decreases g.len(),
{
    if g.len() == 0 {
        -1
    } else {
        let p = group_pos(g.drop_last(), uri);
        if p >= 0 {
            p
        } else if g.last().0 == uri {
            g.len() - 1
        } else {
            -1
        }
    }
}

/// Adds an edited range to the group of its document, or opens a group for it.
pub open spec fn add_to_groups(g: EditGroups, uri: Seq<char>, range: Range) -> EditGroups {
    let p = group_pos(g, uri);
    if p >= 0 {
        g.update(p, (uri, g[p].1.push(range)))
    } else {
        g.push((uri, seq![range]))
    }
}

/// The edited ranges grouped by document in order of first appearance, each
/// document's ranges in order.
pub open spec fn group_edits(locs: Seq<(Seq<char>, Range)>) -> EditGroups
    decreases locs.len(),
{
    if locs.len() == 0 {
        Seq::empty()
    } else {
        add_to_groups(group_edits(locs.drop_last()), locs.last().0, locs.last().1)
    }
}

pub open spec fn edit_ranges(es: Seq<TextEdit>) -> Seq<Range> {
    es.map_values(|e: TextEdit| e.range)
}

pub open spec fn groups_of(v: Seq<DocumentEdits>) -> EditGroups {
    v.map_values(|d: DocumentEdits| (d.uri@, edit_ranges(d.edits@)))
}

/// Whether every edit writes `text`.
pub open spec fn all_write(v: Seq<DocumentEdits>, text: Seq<char>) -> bool {
    forall|i: int, j: int|
        0 <= i < v.len() && 0 <= j < v[i].edits@.len() ==> (#[trigger] v[i].edits@[j]).new_text@ == text
}

proof fn lemma_group_pos(g: EditGroups, uri: Seq<char>)
    ensures
        -1 <= group_pos(g, uri) < g.len(),
        group_pos(g, uri) >= 0 ==> g[group_pos(g, uri)].0 == uri,
        group_pos(g, uri) >= 0 ==> forall|k: int| 0 <= k < group_pos(g, uri) ==> g[k].0 != uri,
        group_pos(g, uri) < 0 ==> forall|k: int| 0 <= k < g.len() ==> g[k].0 != uri,
    decreases g.len(),
{
    if g.len() > 0 {
        let t = g.drop_last();
        lemma_group_pos(t, uri);
        assert forall|k: int| 0 <= k < t.len() implies g[k] == t[k] by {}
    }
}

fn find_group(changes: &Vec<DocumentEdits>, uri: &String) -> (r: Option<usize>)
    ensures
        match r {
            Some(k) => k < changes@.len() && changes@[k as int].uri@ == uri@ && forall|j: int|
                0 <= j < k ==> changes@[j].uri@ != uri@,
            None => forall|j: int| 0 <= j < changes@.len() ==> changes@[j].uri@ != uri@,
        },
{
    let n = changes.len();
    let mut k: usize = 0;
    while k < n
        invariant
            n == changes@.len(),
            k <= n,
            forall|j: int| 0 <= j < k ==> changes@[j].uri@ != uri@,
        decreases n - k,
    {
        if str_equal(changes[k].uri.as_str(), uri.as_str()) {
            return Some(k);
        }
        k = k + 1;
    }
    None
}

/// A rename touches each document once: the groups have pairwise different
/// documents.
pub proof fn lemma_group_edits_distinct(locs: Seq<(Seq<char>, Range)>)
    ensures
        forall|i: int, j: int|
            0 <= i < j < group_edits(locs).len() ==> (#[trigger] group_edits(locs)[i]).0
                != (#[trigger] group_edits(locs)[j]).0,
    decreases locs.len(),
{
    if locs.len() > 0 {
        let t = locs.drop_last();
        lemma_group_edits_distinct(t);
        let g = group_edits(t);
        let (u, r) = locs.last();
        lemma_group_pos(g, u);
        let n = group_edits(locs);
        assert forall|i: int, j: int| 0 <= i < j < n.len() implies (#[trigger] n[i]).0 != (#[trigger] n[j]).0 by {
            if group_pos(g, u) >= 0 {
                let p = group_pos(g, u);
                assert(n[i].0 == g[i].0);
                assert(n[j].0 == g[j].0);
            } else if j < g.len() {
                assert(n[i] == g[i] && n[j] == g[j]);
            } else {
                assert(n[i] == g[i]);
            }
        }
    }
}

fn add_edit(changes: &mut Vec<DocumentEdits>, uri: &String, range: Range, new_name: &String)
    requires
        all_write(old(changes)@, new_name@),
    ensures
        groups_of(final(changes)@) == add_to_groups(groups_of(old(changes)@), uri@, range),
        all_write(final(changes)@, new_name@),
{
    let ghost g = groups_of(changes@);
    proof {
        lemma_group_pos(g, uri@);
    }
    let found = find_group(changes, uri);
    let edit = TextEdit { range, new_text: new_name.clone() };
    if found.is_some() {
        let k = found.unwrap();
        proof {
            assert forall|j: int| 0 <= j < k implies g[j].0 != uri@ by {
                assert(g[j].0 == changes@[j].uri@);
            }
            assert(g[k as int].0 == uri@);
            if group_pos(g, uri@) != k {
                let p = group_pos(g, uri@);
                assert(g[p].0 == changes@[p].uri@);
            }
        }
        let ghost before = changes@;
        let mut entry = changes.remove(k);
        let ghost old_edits = entry.edits@;
        entry.edits.push(edit);
        assert(edit_ranges(entry.edits@) =~= edit_ranges(old_edits).push(range));
        changes.insert(k, entry);
        assert(changes@ =~= before.update(k as int, changes@[k as int]));
        assert(groups_of(changes@) =~= g.update(k as int, (uri@, g[k as int].1.push(range))));
        assert forall|i: int, j: int|
            0 <= i < changes@.len() && 0 <= j < changes@[i].edits@.len() implies (#[trigger] changes@[i].edits@[j]).new_text@ == new_name@ by {
            if i != k {
                assert(changes@[i] == before[i]);
            } else if j < old_edits.len() {
                assert(changes@[i].edits@[j] == old_edits[j]);
                assert(before[i].edits@[j] == old_edits[j]);
            }
        }
    } else {
        proof {
            assert forall|j: int| 0 <= j < g.len() implies g[j].0 != uri@ by {
                assert(g[j].0 == changes@[j].uri@);
            }
            if group_pos(g, uri@) >= 0 {
                let p = group_pos(g, uri@);
                assert(g[p].0 == uri@);
            }
        }
        let ghost before = changes@;
        let edits = vec![edit];
        assert(edit_ranges(edits@) =~= seq![range]);
        changes.push(DocumentEdits { uri: uri.clone(), edits });
        assert(groups_of(changes@) =~= g.push((uri@, seq![range])));
        assert forall|i: int, j: int|
            0 <= i < changes@.len() && 0 <= j < changes@[i].edits@.len() implies (#[trigger] changes@[i].edits@[j]).new_text@ == new_name@ by {
            if i < before.len() {
                assert(changes@[i] == before[i]);
            }
        }
    }
}

pub open spec fn location_pairs(refs: Seq<Location>) -> Seq<(Seq<char>, Range)> {
    refs.map_values(|l: Location| (l.uri@, l.range))
}

/// The module that defines the target: its defining module, else the cursor's.
pub open spec fn def_module_name(target: SymbolTarget, module: CheckedModule) -> Seq<char> {
    match target.def_module {
        Some(d) => d@,
        None => module.name@,
    }
}

/// The edit of the definition site: the target's name within its definition span,
/// where the defining module is compiled and has a document address.
pub open spec fn definition_site(c: LspProject, module: CheckedModule, target: SymbolTarget) -> Seq<
    (Seq<char>, Range),
> {
    match module_named(c.modules@, def_module_name(target, module)) {
        Some(dm) => match dm.uri {
            Some(u) => match identifier_span(encode_utf8(dm.code@), target.def_span, encode_utf8(target.name@)) {
                Some(s) => seq![(u@, range_of(encode_utf8(dm.code@), s))],
                None => Seq::empty(),
            },
            None => Seq::empty(),
        },
        None => Seq::empty(),
    }
}

/// Whether the definition site can be searched and its range placed.
pub open spec fn definition_site_ready(c: LspProject, module: CheckedModule, target: SymbolTarget) -> bool {
    match module_named(c.modules@, def_module_name(target, module)) {
        Some(dm) => dm.uri is Some ==> {
            let bytes = encode_utf8(dm.code@);
            &&& span_sliceable(bytes, target.def_span)
            &&& identifier_span(bytes, target.def_span, encode_utf8(target.name@)) matches Some(s)
                ==> resolvable(bytes, s.start) && resolvable(bytes, s.end)
        },
        None => true,
    }
}

/// Whether the definition site of `target` can be searched and placed, which
/// `rename` needs.
pub fn definition_site_is_ready(c: &LspProject, module: &CheckedModule, target: &SymbolTarget) -> (r:
    bool)
    ensures
        r == definition_site_ready(*c, *module, *target),
{
    let name = match &target.def_module {
        Some(d) => d.as_str(),
        None => module.name.as_str(),
    };
    match find_module(&c.modules, name) {
        Some(k) => {
            let dm = &c.modules[k];
            match &dm.uri {
                None => true,
                Some(_) => {
                    let code = dm.code.as_str();
                    if !span_is_sliceable(code, target.def_span) {
                        return false;
                    }
                    match find_identifier_span(code, target.def_span, target.name.as_str()) {
                        Some(s) => {
                            let line_numbers = LineNumbers::new(code);
                            is_resolvable(&line_numbers, s.start) && is_resolvable(&line_numbers, s.end)
                        },
                        None => true,
                    }
                },
            }
        },
        None => true,
    }
}

/// What a rename answers: the edits at every reference and at the definition site,
/// grouped by document; none for a symbol of a dependency or where there is no edit.
pub open spec fn rename_result(
    compiler: Option<LspProject>,
    module: Option<CheckedModule>,
    target: Option<SymbolTarget>,
    references: Seq<Location>,
) -> Option<EditGroups> {
    match (compiler, module, target) {
        (Some(c), Some(m), Some(t)) => if from_dependency(c, t) {
            None
        } else {
            let g = group_edits(location_pairs(references) + definition_site(c, m, t));
            if g.len() == 0 {
                None
            } else {
                Some(g)
            }
        },
        _ => None,
    }
}

proof fn lemma_group_edits_push(locs: Seq<(Seq<char>, Range)>, x: (Seq<char>, Range))
    ensures
        group_edits(locs.push(x)) == add_to_groups(group_edits(locs), x.0, x.1),
{
    assert(locs.push(x).drop_last() == locs);
}

impl Server {
    /// Renames the symbol at the cursor to `new_name`: `module` is the cursor's
    /// module, `target` the symbol found there and `references` its references in all
    /// modules, module by module.
    pub fn rename(
        &self,
        module: Option<&CheckedModule>,
        target: Option<&SymbolTarget>,
        references: &Vec<Location>,
        new_name: String,
    ) -> (r: Option<WorkspaceEdit>)
        requires
            rename_ready(self.compiler, opt(module), opt(target)),
        ensures
            match rename_result(self.compiler, opt(module), opt(target), references@) {
                Some(g) => r matches Some(w) && groups_of(w.changes@) == g && all_write(w.changes@, new_name@),
                None => r is None,
            },
    {
        let compiler = match &self.compiler {
            Some(c) => c,
            None => return None,
        };
        let module = match module {
            Some(m) => m,
            None => return None,
        };
        let target = match target {
            Some(t) => t,
            None => return None,
        };
        if is_from_dependency(compiler, target) {
            return None;
        }
        let mut changes: Vec<DocumentEdits> = Vec::new();
        let ghost pairs = location_pairs(references@);
        let n = references.len();
        let mut i: usize = 0;
        while i < n
            invariant
                n == references@.len(),
                i <= n,
                pairs == location_pairs(references@),
                groups_of(changes@) == group_edits(pairs.take(i as int)),
                all_write(changes@, new_name@),
            decreases n - i,
        {
            let loc = &references[i];
            add_edit(&mut changes, &loc.uri, loc.range, &new_name);
            proof {
                assert(pairs.take(i + 1) == pairs.take(i as int).push(pairs[i as int]));
                lemma_group_edits_push(pairs.take(i as int), pairs[i as int]);
            }
            i = i + 1;
        }
        assert(pairs.take(n as int) == pairs);
        let ghost site = definition_site(*compiler, *module, *target);
        let def_mod_name = match &target.def_module {
            Some(d) => d.as_str(),
            None => module.name.as_str(),
        };
        match find_module(&compiler.modules, def_mod_name) {
            Some(k) => {
                let def_mod = &compiler.modules[k];
                match &def_mod.uri {
                    Some(uri) => {
                        match find_identifier_span(def_mod.code.as_str(), target.def_span, target.name.as_str()) {
                            Some(name_span) => {
                                let def_ln = LineNumbers::new(def_mod.code.as_str());
                                let range = span_to_lsp_range(name_span, &def_ln);
                                add_edit(&mut changes, uri, range, &new_name);
                                proof {
                                    assert(pairs + site == pairs.push((uri@, range)));
                                    lemma_group_edits_push(pairs, (uri@, range));
                                }
                            },
                            None => {
                                assert(pairs + site == pairs);
                            },
                        }
                    },
                    None => {
                        assert(pairs + site == pairs);
                    },
                }
            },
            None => {
                assert(pairs + site == pairs);
            },
        }
        assert(groups_of(changes@).len() == changes@.len());
        if changes.len() == 0 {
            None
        } else {
            Some(WorkspaceEdit { changes })
        }
    }
}

impl Server {
    /// Whether `prepare_rename` can answer for these arguments without leaving the
    /// source or its lines.
    pub fn prepare_rename_is_ready(
        &self,
        module: Option<&CheckedModule>,
        target: Option<&SymbolTarget>,
        node: Option<&Located>,
    ) -> (r: bool)
        ensures
            r == prepare_rename_ready(self.compiler, opt(module), opt(target), opt(node)),
    {
        match (&self.compiler, module, target, node) {
            (Some(c), Some(m), Some(t), Some(n)) => is_from_dependency(c, t) || node_ready(
                m.code.as_str(),
                n,
            ),
            _ => true,
        }
    }

    /// Whether `rename` can answer for these arguments without leaving a source or
    /// its lines.
    pub fn rename_is_ready(&self, module: Option<&CheckedModule>, target: Option<&SymbolTarget>) -> (r:
        bool)
        ensures
            r == rename_ready(self.compiler, opt(module), opt(target)),
    {
        match (&self.compiler, module, target) {
            (Some(c), Some(m), Some(t)) => is_from_dependency(c, t) || definition_site_is_ready(c, m, t),
            _ => true,
        }
    }
}

} // verus!
