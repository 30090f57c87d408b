//! Symbol extraction: tree-sitter finds the declarations of a source text;
//! the library turns its captures into symbols.
use vstd::prelude::*;
use vstd::utf8::encode_utf8;
use crate::models::{Symbol, SymbolKind, SymbolView};
use crate::ranking::{
    lemma_map_push_step, lemma_ranked_bounds, lemma_ranked_covers, lemma_ranked_len, lemma_ranked_sorted, precedes, rank,
    ranked, KeyView, SortKey,
};
use crate::text::{bytes_lt, lemma_bytes_lt_irreflexive, lemma_bytes_lt_transitive};
use crate::text::{chars_of, trim, trim_bounds};
use crate::models::opt_string_view;
use crate::budgeter::bytes_of;
use tree_sitter::{Parser, Query, QueryCursor};
use tree_sitter_python::language as python_language;
use tree_sitter_rust::language as rust_language;
use tree_sitter_typescript::{language_tsx, language_typescript};
use Grammar::{Python, Rust, Tsx, TypeScript};

verus! {

/// The grammars that symbols are extracted with.
#[derive(Clone, Copy, Debug, PartialEq, Eq, Structural)]
pub enum Grammar {
    TypeScript,
    Tsx,
    Python,
    Rust,
}

/// One capture of a query match, as plain values: the capture's name, the
/// kind of the captured node, the row it starts on, and its text.
#[derive(Debug)]
pub struct RawCapture {
    pub capture: String,
    pub kind: String,
    pub row: usize,
    pub text: String,
}

/// Mathematical value of a [`RawCapture`].
pub struct CaptureView {
    pub capture: Seq<char>,
    pub kind: Seq<char>,
    pub row: usize,
    pub text: Seq<char>,
}

impl View for RawCapture {
    type V = CaptureView;

    open spec fn view(&self) -> CaptureView {
        CaptureView { capture: self.capture@, kind: self.kind@, row: self.row, text: self.text@ }
    }
}

impl RawCapture {
    /// A capture from its parts.
    pub fn new(capture: String, kind: String, row: usize, text: String) -> (r: RawCapture)
        ensures
            r.capture == capture,
            r.kind == kind,
            r.row == row,
            r.text == text,
    {
        RawCapture { capture, kind, row, text }
    }
}

pub open spec fn matches_view(ms: Seq<Vec<RawCapture>>) -> Seq<Seq<CaptureView>> {
    ms.map_values(|m: Vec<RawCapture>| m@.map_values(|c: RawCapture| c@))
}

/// The list of matches that tree-sitter gives for a query over a text parsed
/// with a grammar (each match as its captures), or none where no tree or
/// query came about.
pub uninterp spec fn ts_matches(grammar: Grammar, query: Seq<char>, content: Seq<char>) -> Option<Seq<Seq<CaptureView>>>;

/// The node types that the query of a grammar captures as `item`.
pub open spec fn query_item_kind(grammar: Grammar, kind: Seq<char>) -> bool {
    match grammar {
        Grammar::Python => kind == "class_definition"@ || kind == "function_definition"@,
        Grammar::Rust => kind == "struct_item"@ || kind == "enum_item"@ || kind == "function_item"@,
        _ => kind == "class_declaration"@ || kind == "function_declaration"@ || kind
            == "method_definition"@ || kind == "interface_declaration"@ || kind
            == "type_alias_declaration"@ || kind == "lexical_declaration"@,
    }
}

pub open spec fn opt_matches_view(r: Option<Vec<Vec<RawCapture>>>) -> Option<Seq<Seq<CaptureView>>> {
    match r {
        Some(v) => Some(matches_view(v@)),
        None => None,
    }
}

/// Runs tree-sitter: loads the grammar (`language_typescript`,
/// `language_tsx` or the `language` of tree-sitter-python or
/// tree-sitter-rust) into a `Parser`, parses the text, compiles the query
/// with `Query::new` and runs it with `QueryCursor::matches` over the whole
/// tree; each capture is handed out as plain values. The result is a function
/// of the grammar, the query and the text alone, named `ts_matches`; `None`
/// where the grammar or the query is refused or no tree comes back. Each
/// `item` capture of the grammar's own query is a node of a type that the
/// query names for it, since a query captures the nodes that its patterns
/// match. That a call gets through (`Some`) is left unsaid: whether a query
/// compiles against a grammar is not something tree-sitter's source shows.
#[verifier::external_body]
fn grammar_matches(grammar: Grammar, query: &str, content: &str) -> (r: Option<Vec<Vec<RawCapture>>>)
    requires
        query@ == query_source(grammar),
    ensures
        opt_matches_view(r) == ts_matches(grammar, query@, content@),
        r matches Some(v) ==> forall|i: int, j: int|
            0 <= i < v@.len() && 0 <= j < v@[i]@.len() && (#[trigger] v@[i]@[j]).capture@ == "item"@
                ==> query_item_kind(grammar, v@[i]@[j].kind@),
{
    let language = match grammar {
        TypeScript => language_typescript(),
        Tsx => language_tsx(),
        Python => python_language(),
        Rust => rust_language(),
    };
    let mut parser = Parser::new();
    parser.set_language(language).ok()?;
    let query = Query::new(language, query).ok()?;
    let tree = parser.parse(content, None)?;
    Some(QueryCursor::new().matches(&query, tree.root_node(), content.as_bytes()).map(|m| {
        m.captures.iter().map(|c| RawCapture::new(query.capture_names()[c.index as usize].clone(),
            c.node.kind().into(), c.node.start_position().row, content[c.node.byte_range()].into()))
            .collect()
    }).collect())
}


/// The grammar for a file extension: `ts` and `js` are read as TypeScript,
/// `tsx` and `jsx` as TSX, `py` as Python and `rs` as Rust. The match is
/// exact, so `RS` has none.
pub open spec fn spec_grammar_for_extension(ext: Seq<char>) -> Option<Grammar> {
    if ext == "ts"@ || ext == "js"@ {
        Some(Grammar::TypeScript)
    } else if ext == "tsx"@ || ext == "jsx"@ {
        Some(Grammar::Tsx)
    } else if ext == "py"@ {
        Some(Grammar::Python)
    } else if ext == "rs"@ {
        Some(Grammar::Rust)
    } else {
        None
    }
}

/// The grammar that reads files with this extension, if any.
pub fn grammar_for_extension(ext: &str) -> (r: Option<Grammar>)
    ensures
        r == spec_grammar_for_extension(ext@),
{
    let e = String::from_str(ext);
    if e == String::from_str("ts") || e == String::from_str("js") {
        Some(Grammar::TypeScript)
    } else if e == String::from_str("tsx") || e == String::from_str("jsx") {
        Some(Grammar::Tsx)
    } else if e == String::from_str("py") {
        Some(Grammar::Python)
    } else if e == String::from_str("rs") {
        Some(Grammar::Rust)
    } else {
        None
    }
}

/// Declarations captured in Python sources.
pub const PYTHON_QUERY: &'static str = "
        (class_definition name: (identifier) @name) @item
        (function_definition name: (identifier) @name) @item
        ";

/// Declarations captured in Rust sources.
pub const RUST_QUERY: &'static str = "
        (struct_item name: (type_identifier) @name) @item
        (enum_item name: (type_identifier) @name) @item
        (function_item name: (identifier) @name) @item
        ";

/// Declarations captured in TypeScript and TSX sources.
pub const TYPESCRIPT_QUERY: &'static str = "
        (class_declaration name: (type_identifier) @name) @item
        (function_declaration name: (identifier) @name) @item
        (method_definition name: (property_identifier) @name) @item
        (interface_declaration name: (type_identifier) @name) @item
        (type_alias_declaration name: (type_identifier) @name) @item
        (lexical_declaration
          (variable_declarator
            name: (identifier) @name
            value: [(arrow_function) (function_expression)])) @item
        ";

/// The query text run over sources of a grammar.
pub open spec fn query_source(grammar: Grammar) -> Seq<char> {
    match grammar {
        Grammar::Python => PYTHON_QUERY@,
        Grammar::Rust => RUST_QUERY@,
        _ => TYPESCRIPT_QUERY@,
    }
}

/// The query text of a grammar.
pub fn query_for(grammar: Grammar) -> (q: &'static str)
    ensures
        q@ == query_source(grammar),
{
    match grammar {
        Grammar::Python => PYTHON_QUERY,
        Grammar::Rust => RUST_QUERY,
        _ => TYPESCRIPT_QUERY,
    }
}

/// The symbol kind of a declaration node, by the node's type.
pub open spec fn node_symbol_kind(kind: Seq<char>) -> SymbolKind {
    if kind == "class_declaration"@ || kind == "class_definition"@ || kind == "struct_item"@ {
        SymbolKind::Class
    } else if kind == "interface_declaration"@ {
        SymbolKind::Interface
    } else if kind == "type_alias_declaration"@ || kind == "enum_item"@ || kind == "enum_declaration"@ {
        SymbolKind::Type
    } else if kind == "function_declaration"@ || kind == "function_definition"@ || kind == "function_item"@ {
        SymbolKind::Function
    } else if kind == "method_definition"@ {
        SymbolKind::Method
    } else if kind == "lexical_declaration"@ {
        SymbolKind::Function
    } else {
        SymbolKind::Other
    }
}

/// The symbol kind of a node type.
pub fn symbol_kind_of_node(kind: &str) -> (r: SymbolKind)
    ensures
        r == node_symbol_kind(kind@),
{
    let k = String::from_str(kind);
    if k == String::from_str("class_declaration") || k == String::from_str("class_definition")
        || k == String::from_str("struct_item") {
        SymbolKind::Class
    } else if k == String::from_str("interface_declaration") {
        SymbolKind::Interface
    } else if k == String::from_str("type_alias_declaration") || k == String::from_str("enum_item")
        || k == String::from_str("enum_declaration") {
        SymbolKind::Type
    } else if k == String::from_str("function_declaration") || k == String::from_str(
        "function_definition",
    ) || k == String::from_str("function_item") {
        SymbolKind::Function
    } else if k == String::from_str("method_definition") {
        SymbolKind::Method
    } else if k == String::from_str("lexical_declaration") {
        SymbolKind::Function
    } else {
        SymbolKind::Other
    }
}

/// Number of characters before the first line feed of `s` (all of `s`
/// where it has none).
pub open spec fn line_end(s: Seq<char>) -> nat
    decreases s.len(),
{
    if s.len() == 0 || s[0] == '\n' {
        0
    } else {
        1 + line_end(s.drop_first())
    }
}

/// The first line of a text, trimmed; none for an empty text.
pub open spec fn line_signature(text: Seq<char>) -> Option<Seq<char>> {
    if text.len() == 0 {
        None
    } else {
        Some(trim(text.take(line_end(text) as int)))
    }
}

proof fn lemma_line_end(s: Seq<char>, k: int)
    requires
        0 <= k <= s.len(),
        forall|i: int| 0 <= i < k ==> s[i] != '\n',
        k == s.len() || s[k] == '\n',
    ensures
        line_end(s) == k,
    decreases k,
{
    if k > 0 {
        lemma_line_end(s.drop_first(), k - 1);
    }
}

/// The first line of a text with the white space at its ends removed, as a
/// signature; none for an empty text.
pub fn first_line_signature(text: &str) -> (r: Option<String>)
    ensures
        opt_string_view(r) == line_signature(text@),
{
    let chars = chars_of(text);
    let n = chars.len();
    if n == 0 {
        return None;
    }
    let mut k: usize = 0;
    while k < n && chars[k] != '\n'
        invariant
            k <= n,
            n == chars@.len(),
            forall|i: int| 0 <= i < k ==> chars@[i] != '\n',
        decreases n - k,
    {
        k = k + 1;
    }
    proof {
        lemma_line_end(chars@, k as int);
    }
    let line = text.substring_char(0, k);
    let line_chars = chars_of(line);
    let (a, b) = trim_bounds(&line_chars);
    Some(String::from_str(line.substring_char(a, b)))
}


/// The last capture of a match under a capture name.
pub open spec fn last_capture(m: Seq<CaptureView>, label: Seq<char>) -> Option<CaptureView>
    decreases m.len(),
{
    if m.len() == 0 {
        None
    } else if m.last().capture == label {
        Some(m.last())
    } else {
        last_capture(m.drop_last(), label)
    }
}

/// The symbol that a match declares: its `name` capture gives the name, its
/// `item` capture the kind, the line (rows count from zero, lines from one)
/// and the signature. Where a capture occurs more than once the last one
/// counts; a match without both declares nothing.
pub open spec fn symbol_of_match(m: Seq<CaptureView>) -> Option<SymbolView> {
    match (last_capture(m, "name"@), last_capture(m, "item"@)) {
        (Some(name), Some(item)) => Some(
            SymbolView {
                name: name.text,
                kind: node_symbol_kind(item.kind),
                line: (item.row + 1) as usize,
                signature: line_signature(item.text),
            },
        ),
        _ => None,
    }
}

/// The symbols that a list of matches declares, in the order of the matches.
pub open spec fn match_symbols(ms: Seq<Seq<CaptureView>>) -> Seq<SymbolView>
    decreases ms.len(),
{
    if ms.len() == 0 {
        seq![]
    } else {
        let prev = match_symbols(ms.drop_last());
        match symbol_of_match(ms.last()) {
            Some(sym) => prev.push(sym),
            None => prev,
        }
    }
}

/// The key that symbols are ordered by: line, then the bytes of the name.
pub open spec fn symbol_key(s: SymbolView) -> KeyView {
    KeyView { primary: s.line, text: encode_utf8(s.name), secondary: 0 }
}

/// Symbols in the order of their lines, then of their names; ties keep
/// their order.
pub open spec fn by_line_and_name(syms: Seq<SymbolView>) -> Seq<SymbolView> {
    ranked(syms.map_values(|s: SymbolView| symbol_key(s)), syms.len()).map_values(
        |i: usize| syms[i as int],
    )
}

/// The symbols of a list of matches, ordered by line and name.
pub open spec fn extracted_symbols(ms: Seq<Seq<CaptureView>>) -> Seq<SymbolView> {
    by_line_and_name(match_symbols(ms))
}

/// Every capture starts on a row after which a line number still fits.
pub open spec fn rows_fit(ms: Seq<Seq<CaptureView>>) -> bool {
    forall|i: int, j: int|
        0 <= i < ms.len() && 0 <= j < ms[i].len() ==> (#[trigger] ms[i][j]).row < usize::MAX
}

pub open spec fn symbols_view(syms: Seq<Symbol>) -> Seq<SymbolView> {
    syms.map_values(|s: Symbol| s@)
}

/// The symbol that one match declares, if it declares one.
pub fn symbol_of_captures(m: &Vec<RawCapture>) -> (r: Option<Symbol>)
    requires
        forall|j: int| 0 <= j < m@.len() ==> (#[trigger] m@[j]).row < usize::MAX,
    ensures
        match r {
            Some(sym) => symbol_of_match(m@.map_values(|c: RawCapture| c@)) == Some(sym@),
            None => symbol_of_match(m@.map_values(|c: RawCapture| c@)) is None,
        },
{
    let ghost mv = m@.map_values(|c: RawCapture| c@);
    let name_label = String::from_str("name");
    let item_label = String::from_str("item");
    let mut name_at: Option<usize> = None;
    let mut item_at: Option<usize> = None;
    for i in 0..m.len()
        invariant
            mv == m@.map_values(|c: RawCapture| c@),
            name_label@ == "name"@,
            item_label@ == "item"@,
            match name_at {
                Some(k) => k < i && last_capture(mv.take(i as int), "name"@) == Some(mv[k as int]),
                None => last_capture(mv.take(i as int), "name"@) is None,
            },
            match item_at {
                Some(k) => k < i && last_capture(mv.take(i as int), "item"@) == Some(mv[k as int]),
                None => last_capture(mv.take(i as int), "item"@) is None,
            },
    {
        proof {
            assert(mv.take(i + 1).drop_last() =~= mv.take(i as int));
            assert(mv.take(i + 1).last() == mv[i as int]);
        }
        if m[i].capture == name_label {
            name_at = Some(i);
        }
        if m[i].capture == item_label {
            item_at = Some(i);
        }
    }
    proof {
        assert(mv.take(m@.len() as int) =~= mv);
    }
    match (name_at, item_at) {
        (Some(k), Some(j)) => {
            let item = &m[j];
            let sym = Symbol {
                name: m[k].text.clone(),
                kind: symbol_kind_of_node(item.kind.as_str()),
                line: item.row + 1,
                signature: first_line_signature(item.text.as_str()),
            };
            Some(sym)
        },
        _ => None,
    }
}


/// The symbols that a list of matches declares, ordered by line and then by
/// name, ties in the order of the matches.
pub fn symbols_from_captures(matches: &Vec<Vec<RawCapture>>) -> (r: Vec<Symbol>)
    requires
        rows_fit(matches_view(matches@)),
    ensures
        symbols_view(r@) == extracted_symbols(matches_view(matches@)),
{
    let ghost msv = matches_view(matches@);
    let mut syms: Vec<Symbol> = Vec::new();
    for i in 0..matches.len()
        invariant
            msv == matches_view(matches@),
            rows_fit(msv),
            symbols_view(syms@) == match_symbols(msv.take(i as int)),
    {
        proof {
            assert forall|j: int| 0 <= j < matches@[i as int]@.len() implies (
            #[trigger] matches@[i as int]@[j]).row < usize::MAX by {
                assert(msv[i as int][j] == matches@[i as int]@[j]@);
            }
            assert(msv.take(i + 1).drop_last() =~= msv.take(i as int));
            assert(msv.take(i + 1).last() == msv[i as int]);
            assert(msv[i as int] == matches@[i as int]@.map_values(|c: RawCapture| c@));
        }
        let ghost prev = syms@;
        match symbol_of_captures(&matches[i]) {
            Some(sym) => {
                syms.push(sym);
                proof {
                    assert(symbols_view(syms@) =~= symbols_view(prev).push(sym@));
                }
            },
            None => {},
        }
    }
    proof {
        assert(msv.take(matches@.len() as int) =~= msv);
    }
    let ghost sv = symbols_view(syms@);
    let mut keys: Vec<SortKey> = Vec::new();
    for i in 0..syms.len()
        invariant
            sv == symbols_view(syms@),
            keys@.map_values(|k: SortKey| k@) == sv.take(i as int).map_values(
                |s: SymbolView| symbol_key(s),
            ),
    {
        let key = SortKey { primary: syms[i].line, text: bytes_of(syms[i].name.as_str()), secondary: 0 };
        proof {
            assert(sv[i as int] == syms@[i as int]@);
            lemma_map_push_step(keys@, key, |k: SortKey| k@, sv, |s: SymbolView| symbol_key(s), i as int);
        }
        keys.push(key);
    }
    proof {
        assert(sv.take(syms@.len() as int) =~= sv);
    }
    let order = rank(&keys);
    let ghost sorted_spec = by_line_and_name(sv);
    let mut sorted: Vec<Symbol> = Vec::new();
    for k in 0..order.len()
        invariant
            sv == symbols_view(syms@),
            order@ == ranked(sv.map_values(|s: SymbolView| symbol_key(s)), sv.len()),
            order@.len() == sv.len(),
            forall|m: int| 0 <= m < order@.len() ==> #[trigger] order@[m] < sv.len(),
            sorted_spec == by_line_and_name(sv),
            symbols_view(sorted@) == sorted_spec.take(k as int),
    {
        let ghost prev = sorted@;
        let idx = order[k];
        let copy = syms[idx].clone();
        sorted.push(copy);
        proof {
            assert(symbols_view(prev).len() == prev.len());
            assert(sorted_spec[k as int] == sv[idx as int]);
            assert(symbols_view(sorted@) =~= sorted_spec.take(k + 1));
        }
    }
    proof {
        assert(sorted_spec.take(order@.len() as int) =~= sorted_spec);
    }
    sorted
}


/// Whether every capture starts on a row after which a line number still
/// fits.
pub fn captures_rows_fit(matches: &Vec<Vec<RawCapture>>) -> (b: bool)
    ensures
        b == rows_fit(matches_view(matches@)),
{
    let ghost msv = matches_view(matches@);
    for i in 0..matches.len()
        invariant
            msv == matches_view(matches@),
            msv.len() == matches@.len(),
            forall|a: int, j: int|
                0 <= a < i && 0 <= j < msv[a].len() ==> (#[trigger] msv[a][j]).row < usize::MAX,
    {
        let m = &matches[i];
        proof {
            assert(msv[i as int] == m@.map_values(|c: RawCapture| c@));
        }
        for j in 0..m.len()
            invariant
                msv == matches_view(matches@),
                i < msv.len(),
                msv[i as int] == m@.map_values(|c: RawCapture| c@),
                forall|a: int, c: int|
                    0 <= a < i && 0 <= c < msv[a].len() ==> (#[trigger] msv[a][c]).row < usize::MAX,
                forall|c: int| 0 <= c < j ==> (#[trigger] msv[i as int][c]).row < usize::MAX,
        {
            proof {
                assert(msv[i as int][j as int] == m@[j as int]@);
            }
            if m[j].row == usize::MAX {
                return false;
            }
        }
    }
    true
}

/// What extraction with a grammar gives for a text: the symbols of the
/// matches of the grammar's query, or nothing where no matches came about
/// or a row leaves no room for its line number.
pub open spec fn grammar_symbols(grammar: Grammar, content: Seq<char>) -> Seq<SymbolView> {
    match ts_matches(grammar, query_source(grammar), content) {
        Some(ms) => if rows_fit(ms) {
            extracted_symbols(ms)
        } else {
            seq![]
        },
        None => seq![],
    }
}

/// Every `item` capture of the matches is a node of a type that the query
/// of the grammar captures as `item`.
pub open spec fn items_of_grammar(grammar: Grammar, ms: Seq<Seq<CaptureView>>) -> bool {
    forall|i: int, j: int|
        0 <= i < ms.len() && 0 <= j < ms[i].len() && (#[trigger] ms[i][j]).capture == "item"@
            ==> query_item_kind(grammar, ms[i][j].kind)
}

proof fn lemma_last_capture_in(m: Seq<CaptureView>, label: Seq<char>)
    ensures
        last_capture(m, label) matches Some(c) ==> exists|j: int|
            0 <= j < m.len() && #[trigger] m[j] == c && c.capture == label,
    decreases m.len(),
{
    if m.len() > 0 {
        lemma_last_capture_in(m.drop_last(), label);
        if m.last().capture != label {
            if let Some(c) = last_capture(m, label) {
                let j = choose|j: int| 0 <= j < m.drop_last().len() && #[trigger] m.drop_last()[j] == c
                    && c.capture == label;
                assert(m[j] == c);
            }
        } else {
            assert(m[m.len() - 1] == m.last());
        }
    }
}

proof fn lemma_match_symbols_kinds(grammar: Grammar, ms: Seq<Seq<CaptureView>>)
    requires
        items_of_grammar(grammar, ms),
    ensures
        forall|k: int| 0 <= k < match_symbols(ms).len() ==> (#[trigger] match_symbols(ms)[k]).kind
            != SymbolKind::Other && match_symbols(ms)[k].kind != SymbolKind::Variable,
    decreases ms.len(),
{
    if ms.len() > 0 {
        let d = ms.drop_last();
        assert forall|i: int, j: int|
            0 <= i < d.len() && 0 <= j < d[i].len() && (#[trigger] d[i][j]).capture == "item"@ implies query_item_kind(
            grammar,
            d[i][j].kind,
        ) by {
            assert(d[i] == ms[i]);
        }
        lemma_match_symbols_kinds(grammar, d);
        let m = ms.last();
        if let Some(sym) = symbol_of_match(m) {
            lemma_last_capture_in(m, "item"@);
            let item = last_capture(m, "item"@)->0;
            let j = choose|j: int| 0 <= j < m.len() && #[trigger] m[j] == item && item.capture == "item"@;
            assert(ms[ms.len() - 1] == m);
            assert(ms[ms.len() - 1][j] == item);
            assert(query_item_kind(grammar, item.kind));
            assert(sym.kind == node_symbol_kind(item.kind));
        }
    }
}

/// Symbols extracted from matches whose `item` captures are nodes that the
/// grammar's query names are declarations of a known kind: never `Other`
/// and never `Variable`.
pub proof fn law_extracted_kinds(grammar: Grammar, ms: Seq<Seq<CaptureView>>)
    requires
        ms.len() <= usize::MAX,
        items_of_grammar(grammar, ms),
    ensures
        forall|k: int| 0 <= k < extracted_symbols(ms).len() ==> (#[trigger] extracted_symbols(ms)[k]).kind
            != SymbolKind::Other && extracted_symbols(ms)[k].kind != SymbolKind::Variable,
{
    let syms = match_symbols(ms);
    let keys = syms.map_values(|s: SymbolView| symbol_key(s));
    lemma_match_symbols_kinds(grammar, ms);
    lemma_match_symbols_len(ms);
    lemma_ranked_len(keys, syms.len());
    lemma_ranked_bounds(keys, syms.len());
    assert forall|k: int| 0 <= k < extracted_symbols(ms).len() implies (#[trigger] extracted_symbols(ms)[k]).kind
        != SymbolKind::Other && extracted_symbols(ms)[k].kind != SymbolKind::Variable by {
        let r = ranked(keys, syms.len());
        assert(extracted_symbols(ms)[k] == syms[r[k] as int]);
    }
}

proof fn lemma_match_symbols_len(ms: Seq<Seq<CaptureView>>)
    ensures
        match_symbols(ms).len() <= ms.len(),
    decreases ms.len(),
{
    if ms.len() > 0 {
        lemma_match_symbols_len(ms.drop_last());
    }
}

/// The declarations in a text, read with a grammar, as symbols ordered by
/// line and then by name. They are the symbols of the matches that
/// tree-sitter finds for the grammar's query, and none is of kind `Other`
/// or `Variable`.
pub fn extract_symbols(content: &str, grammar: Grammar) -> (r: Vec<Symbol>)
    ensures
        symbols_view(r@) == grammar_symbols(grammar, content@),
        forall|k: int| 0 <= k < r@.len() ==> (#[trigger] r@[k]).kind != SymbolKind::Other && r@[k].kind
            != SymbolKind::Variable,
        forall|k: int| 0 <= k < r@.len() ==> (#[trigger] r@[k]).line >= 1,
        forall|a: int, b: int|
            0 <= a < b < r@.len() ==> (#[trigger] r@[a]).line < (#[trigger] r@[b]).line || (r@[a].line
                == r@[b].line && !bytes_lt(encode_utf8(r@[b].name@), encode_utf8(r@[a].name@))),
{
    match grammar_matches(grammar, query_for(grammar), content) {
        Some(m) => {
            if captures_rows_fit(&m) {
                let r = symbols_from_captures(&m);
                proof {
                    let msv = matches_view(m@);
                    assert forall|i: int, j: int|
                        0 <= i < msv.len() && 0 <= j < msv[i].len() && (#[trigger] msv[i][j]).capture
                            == "item"@ implies query_item_kind(grammar, msv[i][j].kind) by {
                        assert(msv[i][j] == m@[i]@[j]@);
                    }
                    law_extracted_kinds(grammar, msv);
                    law_sorted_by_line(msv);
                    assert forall|k: int| 0 <= k < r@.len() implies (#[trigger] r@[k]).line >= 1 by {
                        assert(symbols_view(r@)[k] == r@[k]@);
                    }
                    assert forall|a: int, b: int| 0 <= a < b < r@.len() implies (#[trigger] r@[a]).line
                        < (#[trigger] r@[b]).line || (r@[a].line == r@[b].line && !bytes_lt(
                        encode_utf8(r@[b].name@),
                        encode_utf8(r@[a].name@),
                    )) by {
                        assert(symbols_view(r@)[a] == r@[a]@);
                        assert(symbols_view(r@)[b] == r@[b]@);
                    }
                    assert forall|k: int| 0 <= k < r@.len() implies (#[trigger] r@[k]).kind
                        != SymbolKind::Other && r@[k].kind != SymbolKind::Variable by {
                        assert(symbols_view(r@)[k] == r@[k]@);
                    }
                }
                r
            } else {
                Vec::new()
            }
        },
        None => Vec::new(),
    }
}

/// The symbols of a source text, read with the grammar of its file
/// extension; none where the extension has no grammar.
pub fn index_source(extension: &str, content: &str) -> (r: Vec<Symbol>)
    ensures
        match spec_grammar_for_extension(extension@) {
            Some(g) => symbols_view(r@) == grammar_symbols(g, content@),
            None => r@.len() == 0,
        },
        forall|k: int| 0 <= k < r@.len() ==> (#[trigger] r@[k]).kind != SymbolKind::Other && r@[k].kind
            != SymbolKind::Variable,
        forall|k: int| 0 <= k < r@.len() ==> (#[trigger] r@[k]).line >= 1,
        forall|a: int, b: int|
            0 <= a < b < r@.len() ==> (#[trigger] r@[a]).line < (#[trigger] r@[b]).line || (r@[a].line
                == r@[b].line && !bytes_lt(encode_utf8(r@[b].name@), encode_utf8(r@[a].name@))),
{
    match grammar_for_extension(extension) {
        Some(g) => extract_symbols(content, g),
        None => Vec::new(),
    }
}


proof fn lemma_match_symbols_lines(ms: Seq<Seq<CaptureView>>)
    requires
        rows_fit(ms),
    ensures
        forall|k: int| 0 <= k < match_symbols(ms).len() ==> (#[trigger] match_symbols(ms)[k]).line >= 1,
    decreases ms.len(),
{
    if ms.len() > 0 {
        let d = ms.drop_last();
        assert forall|i: int, j: int| 0 <= i < d.len() && 0 <= j < d[i].len() implies (
        #[trigger] d[i][j]).row < usize::MAX by {
            assert(d[i] == ms[i]);
        }
        lemma_match_symbols_lines(d);
        let m = ms.last();
        if let Some(sym) = symbol_of_match(m) {
            lemma_last_capture_in(m, "item"@);
            let item = last_capture(m, "item"@)->0;
            let j = choose|j: int| 0 <= j < m.len() && #[trigger] m[j] == item && item.capture == "item"@;
            assert(ms[ms.len() - 1] == m);
            assert(ms[ms.len() - 1][j] == item);
            assert(item.row < usize::MAX);
        }
    }
}

/// Extracted symbols come in the order of their lines, those on one line in
/// the order of the bytes of their names, and lines count from one.
pub proof fn law_sorted_by_line(ms: Seq<Seq<CaptureView>>)
    requires
        ms.len() <= usize::MAX,
        rows_fit(ms),
    ensures
        forall|a: int, b: int|
            0 <= a < b < extracted_symbols(ms).len() ==> {
                let (x, y) = (#[trigger] extracted_symbols(ms)[a], #[trigger] extracted_symbols(ms)[b]);
                x.line < y.line || (x.line == y.line && !bytes_lt(encode_utf8(y.name), encode_utf8(x.name)))
            },
        forall|k: int| 0 <= k < extracted_symbols(ms).len() ==> (#[trigger] extracted_symbols(ms)[k]).line >= 1,
{
    let syms = match_symbols(ms);
    let keys = syms.map_values(|s: SymbolView| symbol_key(s));
    let n = syms.len();
    let r = ranked(keys, n);
    let ex = extracted_symbols(ms);
    lemma_match_symbols_len(ms);
    lemma_match_symbols_lines(ms);
    lemma_ranked_len(keys, n);
    lemma_ranked_bounds(keys, n);
    lemma_ranked_sorted(keys, n);
    assert forall|k: int| 0 <= k < ex.len() implies (#[trigger] ex[k]).line >= 1 by {
        assert(ex[k] == syms[r[k] as int]);
    }
    assert forall|a: int, b: int| 0 <= a < b < ex.len() implies {
        let (x, y) = (#[trigger] ex[a], #[trigger] ex[b]);
        x.line < y.line || (x.line == y.line && !bytes_lt(encode_utf8(y.name), encode_utf8(x.name)))
    } by {
        assert(precedes(keys, r[a], r[b]));
        assert(ex[a] == syms[r[a] as int]);
        assert(ex[b] == syms[r[b] as int]);
        assert(keys[r[a] as int] == symbol_key(ex[a]));
        assert(keys[r[b] as int] == symbol_key(ex[b]));
        let (x, y) = (encode_utf8(ex[a].name), encode_utf8(ex[b].name));
        if bytes_lt(y, x) {
            lemma_bytes_lt_irreflexive(x);
            if bytes_lt(x, y) {
                lemma_bytes_lt_transitive(x, y, x);
            }
        }
    }
}


/// Capture `j` is the last one of the match under this capture name.
pub open spec fn is_last_capture(m: Seq<CaptureView>, j: int, label: Seq<char>) -> bool {
    &&& 0 <= j < m.len()
    &&& m[j].capture == label
    &&& forall|q: int| j < q < m.len() ==> (#[trigger] m[q]).capture != label
}

/// A match declares a symbol: it has a `name` capture and an `item` capture.
pub open spec fn declares(m: Seq<CaptureView>) -> bool {
    &&& exists|j: int| 0 <= j < m.len() && (#[trigger] m[j]).capture == "name"@
    &&& exists|j: int| 0 <= j < m.len() && (#[trigger] m[j]).capture == "item"@
}

/// `s` is the symbol that match `m` declares: the text of its last `name`
/// capture, and from its last `item` capture the kind of the node, the line
/// (the row plus one) and the trimmed first line of the node's text.
pub open spec fn declared_by(s: SymbolView, m: Seq<CaptureView>) -> bool {
    exists|a: int, b: int|
        is_last_capture(m, a, "name"@) && is_last_capture(m, b, "item"@) && s.name == #[trigger] m[a].text
            && s.kind == node_symbol_kind(#[trigger] m[b].kind) && s.line == m[b].row + 1 && s.signature
            == line_signature(m[b].text)
}

proof fn lemma_last_capture_is_last(m: Seq<CaptureView>, label: Seq<char>)
    ensures
        last_capture(m, label) matches Some(c) ==> exists|j: int| is_last_capture(m, j, label) && #[trigger] m[j] == c,
        last_capture(m, label) is None ==> forall|j: int| 0 <= j < m.len() ==> (#[trigger] m[j]).capture != label,
    decreases m.len(),
{
    if m.len() > 0 {
        let d = m.drop_last();
        lemma_last_capture_is_last(d, label);
        let n = m.len() - 1;
        if m.last().capture == label {
            assert(m[n] == m.last());
            assert(is_last_capture(m, n, label));
        } else {
            if let Some(c) = last_capture(d, label) {
                let j = choose|j: int| is_last_capture(d, j, label) && #[trigger] d[j] == c;
                assert(m[j] == d[j]);
                assert forall|q: int| j < q < m.len() implies (#[trigger] m[q]).capture != label by {
                    if q < n {
                        assert(m[q] == d[q]);
                    }
                }
                assert(is_last_capture(m, j, label));
            } else {
                assert forall|j: int| 0 <= j < m.len() implies (#[trigger] m[j]).capture != label by {
                    if j < n {
                        assert(m[j] == d[j]);
                    }
                }
            }
        }
    }
}

proof fn lemma_symbol_of_match(m: Seq<CaptureView>)
    requires
        forall|j: int| 0 <= j < m.len() ==> (#[trigger] m[j]).row < usize::MAX,
    ensures
        symbol_of_match(m) is Some <==> declares(m),
        symbol_of_match(m) matches Some(s) ==> declared_by(s, m),
{
    lemma_last_capture_is_last(m, "name"@);
    lemma_last_capture_is_last(m, "item"@);
    if let Some(s) = symbol_of_match(m) {
        let nc = last_capture(m, "name"@)->0;
        let ic = last_capture(m, "item"@)->0;
        let a = choose|a: int| is_last_capture(m, a, "name"@) && #[trigger] m[a] == nc;
        let b = choose|b: int| is_last_capture(m, b, "item"@) && #[trigger] m[b] == ic;
        assert(s.name == m[a].text && s.kind == node_symbol_kind(m[b].kind));
        assert(declared_by(s, m));
        assert(m[a].capture == "name"@ && m[b].capture == "item"@);
    }
    if declares(m) {
        let a = choose|j: int| 0 <= j < m.len() && (#[trigger] m[j]).capture == "name"@;
        let b = choose|j: int| 0 <= j < m.len() && (#[trigger] m[j]).capture == "item"@;
        assert(m[a].capture == "name"@);
        assert(m[b].capture == "item"@);
    }
}

/// What `match_symbols` holds, in terms of the matches alone.
proof fn lemma_match_symbols_members(ms: Seq<Seq<CaptureView>>)
    requires
        rows_fit(ms),
    ensures
        match_symbols(ms).len() == ms.filter(|m: Seq<CaptureView>| declares(m)).len(),
        forall|k: int| 0 <= k < match_symbols(ms).len() ==> exists|i: int|
            0 <= i < ms.len() && declared_by(#[trigger] match_symbols(ms)[k], ms[i]),
        forall|i: int| 0 <= i < ms.len() && declares(#[trigger] ms[i]) ==> exists|k: int|
            0 <= k < match_symbols(ms).len() && symbol_of_match(ms[i]) == Some(
                #[trigger] match_symbols(ms)[k],
            ),
    decreases ms.len(),
{
    if ms.len() == 0 {
        reveal(Seq::filter);
    } else {
        let d = ms.drop_last();
        let n = ms.len() - 1;
        assert forall|i: int, j: int| 0 <= i < d.len() && 0 <= j < d[i].len() implies (
        #[trigger] d[i][j]).row < usize::MAX by {
            assert(d[i] == ms[i]);
        }
        lemma_match_symbols_members(d);
        let prev = match_symbols(d);
        let cur = match_symbols(ms);
        assert(ms[n] == ms.last());
        assert forall|j: int| 0 <= j < ms.last().len() implies (#[trigger] ms.last()[j]).row < usize::MAX by {
            assert(ms[n][j] == ms.last()[j]);
        }
        lemma_symbol_of_match(ms.last());
        let pred = |m: Seq<CaptureView>| declares(m);
        reveal(Seq::filter);
        assert(ms.filter(pred).len() == d.filter(pred).len() + if declares(ms.last()) {
            1int
        } else {
            0int
        });
        assert forall|k: int| 0 <= k < cur.len() implies exists|i: int|
            0 <= i < ms.len() && declared_by(#[trigger] cur[k], ms[i]) by {
            if k < prev.len() {
                assert(cur[k] == prev[k]);
                let i = choose|i: int| 0 <= i < d.len() && declared_by(#[trigger] prev[k], d[i]);
                assert(ms[i] == d[i]);
            } else {
                assert(declared_by(cur[k], ms[n]));
            }
        }
        assert forall|i: int| 0 <= i < ms.len() && declares(#[trigger] ms[i]) implies exists|k: int|
            0 <= k < cur.len() && symbol_of_match(ms[i]) == Some(#[trigger] cur[k]) by {
            if i < n {
                assert(ms[i] == d[i]);
                let k = choose|k: int| 0 <= k < prev.len() && symbol_of_match(d[i]) == Some(#[trigger] prev[k]);
                assert(cur[k] == prev[k]);
            } else {
                assert(cur[prev.len() as int] == symbol_of_match(ms[n])->0);
            }
        }
    }
}

/// Extraction keeps one symbol per match that declares one, and nothing
/// else: there are as many symbols as such matches, each symbol is the one
/// that some match declares (its last `name` capture's text; the kind, line
/// and first line of its last `item` capture), and the symbol of every such
/// match is among them.
pub proof fn law_one_symbol_per_match(ms: Seq<Seq<CaptureView>>)
    requires
        ms.len() <= usize::MAX,
        rows_fit(ms),
    ensures
        extracted_symbols(ms).len() == ms.filter(|m: Seq<CaptureView>| declares(m)).len(),
        forall|k: int| 0 <= k < extracted_symbols(ms).len() ==> exists|i: int|
            0 <= i < ms.len() && declared_by(#[trigger] extracted_symbols(ms)[k], ms[i]),
        forall|i: int, s: SymbolView| 0 <= i < ms.len() && declares(ms[i]) && #[trigger] declared_by(s, ms[i])
            ==> extracted_symbols(ms).contains(s),
{
    let syms = match_symbols(ms);
    let keys = syms.map_values(|s: SymbolView| symbol_key(s));
    let n = syms.len();
    let r = ranked(keys, n);
    let ex = extracted_symbols(ms);
    lemma_match_symbols_len(ms);
    lemma_match_symbols_members(ms);
    lemma_ranked_len(keys, n);
    lemma_ranked_bounds(keys, n);
    lemma_ranked_covers(keys, n);
    assert forall|k: int| 0 <= k < ex.len() implies exists|i: int|
        0 <= i < ms.len() && declared_by(#[trigger] ex[k], ms[i]) by {
        assert(ex[k] == syms[r[k] as int]);
        let i = choose|i: int| 0 <= i < ms.len() && declared_by(#[trigger] syms[r[k] as int], ms[i]);
    }
    assert forall|i: int, s: SymbolView| 0 <= i < ms.len() && declares(ms[i]) && #[trigger] declared_by(s, ms[i])
        implies ex.contains(s) by {
        assert forall|j: int| 0 <= j < ms[i].len() implies (#[trigger] ms[i][j]).row < usize::MAX by {}
        lemma_symbol_of_match(ms[i]);
        lemma_declared_by_unique(s, symbol_of_match(ms[i])->0, ms[i]);
        let k = choose|k: int| 0 <= k < syms.len() && symbol_of_match(ms[i]) == Some(#[trigger] syms[k]);
        assert(r.contains(k as usize));
        let p = choose|p: int| 0 <= p < r.len() && r[p] == k as usize;
        assert(ex[p] == syms[k]);
    }
}

proof fn lemma_declared_by_unique(s: SymbolView, t: SymbolView, m: Seq<CaptureView>)
    requires
        declared_by(s, m),
        declared_by(t, m),
    ensures
        s == t,
{
    let (a, b) = choose|a: int, b: int|
        is_last_capture(m, a, "name"@) && is_last_capture(m, b, "item"@) && s.name == #[trigger] m[a].text
            && s.kind == node_symbol_kind(#[trigger] m[b].kind) && s.line == m[b].row + 1 && s.signature
            == line_signature(m[b].text);
    let (c, d) = choose|a: int, b: int|
        is_last_capture(m, a, "name"@) && is_last_capture(m, b, "item"@) && t.name == #[trigger] m[a].text
            && t.kind == node_symbol_kind(#[trigger] m[b].kind) && t.line == m[b].row + 1 && t.signature
            == line_signature(m[b].text);
    if a < c {
        assert(m[c].capture != "name"@);
    }
    if c < a {
        assert(m[a].capture != "name"@);
    }
    if b < d {
        assert(m[d].capture != "item"@);
    }
    if d < b {
        assert(m[b].capture != "item"@);
    }
}

/// The kind that each declaration node is given: classes, Python classes
/// and Rust structs are classes; interfaces are interfaces; type aliases
/// and enums are types; functions, Rust functions and arrow or function
/// expressions bound by `const`/`let` are functions; methods are methods;
/// any other node is `Other`.
pub proof fn law_node_kinds(kind: Seq<char>)
    ensures
        kind == "class_declaration"@ || kind == "class_definition"@ || kind == "struct_item"@
            ==> node_symbol_kind(kind) == SymbolKind::Class,
        kind == "interface_declaration"@ ==> node_symbol_kind(kind) == SymbolKind::Interface,
        kind == "type_alias_declaration"@ || kind == "enum_item"@ || kind == "enum_declaration"@
            ==> node_symbol_kind(kind) == SymbolKind::Type,
        kind == "function_declaration"@ || kind == "function_definition"@ || kind == "function_item"@
            || kind == "lexical_declaration"@ ==> node_symbol_kind(kind) == SymbolKind::Function,
        kind == "method_definition"@ ==> node_symbol_kind(kind) == SymbolKind::Method,
        !(kind == "class_declaration"@ || kind == "class_definition"@ || kind == "struct_item"@ || kind
            == "interface_declaration"@ || kind == "type_alias_declaration"@ || kind == "enum_item"@ || kind
            == "enum_declaration"@ || kind == "function_declaration"@ || kind == "function_definition"@
            || kind == "function_item"@ || kind == "lexical_declaration"@ || kind == "method_definition"@)
            ==> node_symbol_kind(kind) == SymbolKind::Other,
{
    reveal_strlit("class_declaration");
    reveal_strlit("class_definition");
    reveal_strlit("struct_item");
    reveal_strlit("interface_declaration");
    reveal_strlit("type_alias_declaration");
    reveal_strlit("enum_item");
    reveal_strlit("enum_declaration");
    reveal_strlit("function_declaration");
    reveal_strlit("function_definition");
    reveal_strlit("function_item");
    reveal_strlit("lexical_declaration");
    reveal_strlit("method_definition");
    assert("class_declaration"@.len() == 17 && "class_declaration"@[0] == 'c');
    assert("class_definition"@.len() == 16 && "class_definition"@[0] == 'c');
    assert("struct_item"@.len() == 11 && "struct_item"@[0] == 's');
    assert("interface_declaration"@.len() == 21 && "interface_declaration"@[0] == 'i');
    assert("type_alias_declaration"@.len() == 22 && "type_alias_declaration"@[0] == 't');
    assert("enum_item"@.len() == 9 && "enum_item"@[0] == 'e');
    assert("enum_declaration"@.len() == 16 && "enum_declaration"@[0] == 'e');
    assert("function_declaration"@.len() == 20 && "function_declaration"@[0] == 'f');
    assert("function_definition"@.len() == 19 && "function_definition"@[0] == 'f');
    assert("function_item"@.len() == 13 && "function_item"@[0] == 'f');
    assert("lexical_declaration"@.len() == 19 && "lexical_declaration"@[0] == 'l');
    assert("method_definition"@.len() == 17 && "method_definition"@[0] == 'm');
}

} // verus!
