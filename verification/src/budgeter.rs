//! Token budgets and the pruning of a map to the size that a budget allows.
use vstd::prelude::*;
use vstd::utf8::encode_utf8;
use crate::json::{
    bytes_total, file_json, files_json, join, json_len, lemma_bytes_total_update, lemma_empty_map_len,
    lemma_file_json_len, lemma_join_len, lemma_map_json_len, lemma_symbol_json_nonempty,
    serialized_len, symbol_json, symbols_json,
};
use crate::models::{ContextMap, ContextMapView, FileMap, FileMapView, Symbol, SymbolKind, SymbolView};
use crate::ranking::{
    lemma_ranked_bounds, lemma_ranked_covers, lemma_ranked_len, lemma_ranked_sorted, precedes, rank,
    ranked, KeyView, SortKey,
};
use crate::text::{
    bytes_lt, all_digits, ascii_lower, ascii_lower_char, chars_of, digits_value, is_digit, is_white_space,
    lemma_trim_unchanged, parse_usize, parse_usize_in, to_ascii_lower, trim, trim_bounds,
};
use crate::text::{lemma_lower_trim, lemma_trim_padded};
use crate::ranking::{key_lt, lemma_key_lt_irreflexive, lemma_key_lt_transitive};
use crate::json::lemma_bytes_total_permuted;
use crate::ranking::lemma_map_push_step;

verus! {

/// Bytes of JSON allowed per token of budget.
pub const BYTES_PER_TOKEN: usize = 4;

/// The root written when no other fits.
pub const MIN_ROOT: &'static str = "";

/// A budget of tokens; the JSON output may use four bytes per token.
#[derive(Debug, Clone, Copy, PartialEq, Eq)]
pub struct Budget {
    max_tokens: usize,
}

/// What a pruning kept, and under which limits.
#[derive(Debug, Clone, PartialEq, Eq)]
pub struct BudgetSummary {
    pub max_tokens: usize,
    pub max_bytes: usize,
    pub requested_max_bytes: usize,
    pub output_bytes: usize,
    pub indexed_files: usize,
    pub retained_files: usize,
}

pub open spec fn invalid_value_message(input: Seq<char>) -> Seq<char> {
    "invalid budget value: "@ + input
}

pub open spec fn too_large_message(input: Seq<char>) -> Seq<char> {
    "budget is too large: "@ + input
}

/// What a budget text denotes: surrounding white space is ignored, a final
/// `k` or `K` multiplies by 1000, the number is read as `str::parse::<usize>`
/// reads it, and it must not be zero.
pub open spec fn parse_budget(input: Seq<char>) -> Result<usize, Seq<char>> {
    let trimmed = trim(input);
    if trimmed.len() == 0 {
        Err("budget cannot be empty"@)
    } else {
        let normalized = ascii_lower(trimmed);
        let digits: Result<usize, Seq<char>> = if normalized.last() == 'k' {
            match parse_usize(normalized.drop_last()) {
                None => Err(invalid_value_message(input)),
                Some(base) => if base * 1000 > usize::MAX {
                    Err(too_large_message(input))
                } else {
                    Ok((base * 1000) as usize)
                },
            }
        } else {
            match parse_usize(normalized) {
                None => Err(invalid_value_message(input)),
                Some(v) => Ok(v),
            }
        };
        match digits {
            Err(e) => Err(e),
            Ok(d) => if d == 0 {
                Err("budget must be greater than zero"@)
            } else {
                Ok(d)
            },
        }
    }
}

/// `a + b`, or `usize::MAX` where that overflows.
pub open spec fn sat_add(a: usize, b: usize) -> usize {
    if a + b > usize::MAX {
        usize::MAX
    } else {
        (a + b) as usize
    }
}

/// `a * b`, or `usize::MAX` where that overflows.
pub open spec fn sat_mul(a: usize, b: usize) -> usize {
    if a * b > usize::MAX {
        usize::MAX
    } else {
        (a * b) as usize
    }
}

/// Bytes that the JSON output may use for a budget of `tokens`.
pub open spec fn requested_bytes(tokens: usize) -> usize {
    sat_mul(tokens, BYTES_PER_TOKEN)
}

impl Budget {
    /// The number of tokens.
    pub closed spec fn tokens(self) -> usize {
        self.max_tokens
    }

    /// Reads a budget such as `8000`, `8k` or `32K`.
    pub fn parse(input: &str) -> (res: Result<Budget, String>)
        ensures
            match res {
                Ok(b) => parse_budget(input@) == Ok::<usize, Seq<char>>(b.tokens()),
                Err(e) => parse_budget(input@) == Err::<usize, Seq<char>>(e@),
            },
    {
        let chars = chars_of(input);
        let (a, b) = trim_bounds(&chars);
        if a == b {
            return Err(String::from_str("budget cannot be empty"));
        }
        let mut normalized: Vec<char> = Vec::new();
        for i in a..b
            invariant
                a <= b <= chars.len(),
                normalized@ == ascii_lower(chars@.subrange(a as int, i as int)),
        {
            normalized.push(to_ascii_lower(chars[i]));
            proof {
                assert(ascii_lower(chars@.subrange(a as int, i + 1)) =~= normalized@);
            }
        }
        let n = normalized.len();
        proof {
            assert(normalized@ == ascii_lower(trim(input@)));
            assert(normalized@.subrange(0, n - 1) =~= normalized@.drop_last());
            assert(normalized@.subrange(0, n as int) =~= normalized@);
        }
        let digits = if normalized[n - 1] == 'k' {
            match parse_usize_in(&normalized, 0, n - 1) {
                None => {
                    let mut msg = String::from_str("invalid budget value: ");
                    msg.append(input);
                    return Err(msg);
                },
                Some(base) => match base.checked_mul(1000) {
                    None => {
                        let mut msg = String::from_str("budget is too large: ");
                        msg.append(input);
                        return Err(msg);
                    },
                    Some(v) => v,
                },
            }
        } else {
            match parse_usize_in(&normalized, 0, n) {
                None => {
                    let mut msg = String::from_str("invalid budget value: ");
                    msg.append(input);
                    return Err(msg);
                },
                Some(v) => v,
            }
        };
        if digits == 0 {
            return Err(String::from_str("budget must be greater than zero"));
        }
        Ok(Budget { max_tokens: digits })
    }

    /// The number of tokens.
    pub fn max_tokens(self) -> (r: usize)
        ensures
            r == self.tokens(),
    {
        self.max_tokens
    }

    /// Bytes that the JSON output may use: four per token, at most `usize::MAX`.
    pub fn max_bytes(self) -> (r: usize)
        ensures
            r == requested_bytes(self.tokens()),
    {
        match self.max_tokens.checked_mul(BYTES_PER_TOKEN) {
            Some(v) => v,
            None => usize::MAX,
        }
    }
}


/// Weight of a symbol kind in its score.
pub open spec fn spec_kind_weight(kind: SymbolKind) -> usize {
    match kind {
        SymbolKind::Class => 80,
        SymbolKind::Interface => 70,
        SymbolKind::Type => 65,
        SymbolKind::Method => 60,
        SymbolKind::Function => 55,
        SymbolKind::Variable => 40,
        SymbolKind::Other => 20,
    }
}

/// Length in bytes of the UTF-8 encoding of `s`.
pub open spec fn byte_len(s: Seq<char>) -> nat {
    encode_utf8(s).len()
}

/// A symbol whose score can be computed without overflow.
pub open spec fn symbol_scorable(s: SymbolView) -> bool {
    byte_len(s.name) * 8 <= usize::MAX
}

/// A file whose score can be computed without overflow.
pub open spec fn file_scorable(f: FileMapView) -> bool {
    &&& f.symbols.len() * 100 <= usize::MAX
    &&& forall|k: int| 0 <= k < f.symbols.len() ==> symbol_scorable(#[trigger] f.symbols[k])
}

/// A map whose files and symbols can all be scored without overflow.
pub open spec fn scorable(m: ContextMapView) -> bool {
    forall|i: int| 0 <= i < m.files.len() ==> file_scorable(#[trigger] m.files[i])
}

/// Score of a symbol: the bytes of its signature, eight per byte of its
/// name, and the weight of its kind.
pub open spec fn spec_symbol_score(s: SymbolView) -> usize {
    let signature = match s.signature {
        Some(t) => byte_len(t) as usize,
        None => 0,
    };
    sat_add(sat_add(signature, (byte_len(s.name) * 8) as usize), spec_kind_weight(s.kind))
}

/// The saturating sum of the scores of `syms`.
pub open spec fn richness(syms: Seq<SymbolView>) -> usize
    decreases syms.len(),
{
    if syms.len() == 0 {
        0
    } else {
        sat_add(richness(syms.drop_last()), spec_symbol_score(syms.last()))
    }
}

/// Score of a file: one hundred per symbol, the scores of its symbols, and
/// the bytes of its path.
pub open spec fn spec_file_score(f: FileMapView) -> usize {
    sat_add(sat_add((f.symbols.len() * 100) as usize, richness(f.symbols)), byte_len(f.path) as usize)
}

/// Files are ranked by score, highest first, then by path.
pub open spec fn file_key(f: FileMapView) -> KeyView {
    KeyView {
        primary: (usize::MAX - spec_file_score(f)) as usize,
        text: encode_utf8(f.path),
        secondary: 0,
    }
}

/// Symbols are ranked by score, highest first, then by name, then by line.
pub open spec fn symbol_key(s: SymbolView) -> KeyView {
    KeyView {
        primary: (usize::MAX - spec_symbol_score(s)) as usize,
        text: encode_utf8(s.name),
        secondary: s.line,
    }
}

/// The files in the order in which they are offered to the budget.
pub open spec fn ranked_files(files: Seq<FileMapView>) -> Seq<FileMapView> {
    ranked(files.map_values(|f: FileMapView| file_key(f)), files.len()).map_values(
        |i: usize| files[i as int],
    )
}

/// The symbols of a file in the order in which they are offered to the budget.
pub open spec fn ranked_symbols(syms: Seq<SymbolView>) -> Seq<SymbolView> {
    ranked(syms.map_values(|s: SymbolView| symbol_key(s)), syms.len()).map_values(
        |i: usize| syms[i as int],
    )
}

pub fn kind_weight(kind: SymbolKind) -> (w: usize)
    ensures
        w == spec_kind_weight(kind),
{
    match kind {
        SymbolKind::Class => 80,
        SymbolKind::Interface => 70,
        SymbolKind::Type => 65,
        SymbolKind::Method => 60,
        SymbolKind::Function => 55,
        SymbolKind::Variable => 40,
        SymbolKind::Other => 20,
    }
}

/// Length in bytes of a string.
pub fn str_byte_len(s: &str) -> (n: usize)
    ensures
        n == byte_len(s@),
{
    s.as_bytes().len()
}

pub fn symbol_score(symbol: &Symbol) -> (score: usize)
    requires
        symbol_scorable(symbol@),
    ensures
        score == spec_symbol_score(symbol@),
{
    let signature = match &symbol.signature {
        Some(value) => str_byte_len(value.as_str()),
        None => 0,
    };
    let name = str_byte_len(symbol.name.as_str());
    signature.saturating_add(name * 8).saturating_add(kind_weight(symbol.kind))
}

pub fn file_score(file: &FileMap) -> (score: usize)
    requires
        file_scorable(file@),
    ensures
        score == spec_file_score(file@),
{
    let ghost syms = file@.symbols;
    let symbol_count = file.symbols.len() * 100;
    let mut richness_acc: usize = 0;
    let n = file.symbols.len();
    for i in 0..n
        invariant
            n == file.symbols.len(),
            syms == file@.symbols,
            file_scorable(file@),
            richness_acc == richness(syms.take(i as int)),
    {
        proof {
            assert(syms[i as int] == file.symbols@[i as int]@);
            assert(symbol_scorable(syms[i as int]));
            assert(syms.take(i + 1).drop_last() =~= syms.take(i as int));
        }
        richness_acc = richness_acc.saturating_add(symbol_score(&file.symbols[i]));
    }
    proof {
        assert(syms.take(n as int) =~= syms);
    }
    symbol_count.saturating_add(richness_acc).saturating_add(str_byte_len(file.path.as_str()))
}

/// The bytes of a string.
pub fn bytes_of(s: &str) -> (v: Vec<u8>)
    ensures
        v@ == encode_utf8(s@),
{
    let b = s.as_bytes();
    let mut v: Vec<u8> = Vec::new();
    for i in 0..b.len()
        invariant
            v@ == b@.take(i as int),
    {
        v.push(b[i]);
        proof {
            assert(b@.take(i + 1) =~= v@);
        }
    }
    assert(b@.take(b@.len() as int) =~= b@);
    v
}

/// The ranking keys of files.
fn file_keys(files: &Vec<FileMap>) -> (keys: Vec<SortKey>)
    requires
        forall|i: int| 0 <= i < files@.len() ==> file_scorable(#[trigger] files@[i]@),
    ensures
        keys@.map_values(|k: SortKey| k@) == files@.map_values(|f: FileMap| file_key(f@)),
{
    let mut keys: Vec<SortKey> = Vec::new();
    for i in 0..files.len()
        invariant
            forall|i: int| 0 <= i < files@.len() ==> file_scorable(#[trigger] files@[i]@),
            keys@.map_values(|k: SortKey| k@) == files@.take(i as int).map_values(
                |f: FileMap| file_key(f@),
            ),
    {
        let f = &files[i];
        let score = file_score(f);
        let key = SortKey { primary: usize::MAX - score, text: bytes_of(f.path.as_str()), secondary: 0 };
        proof {
            lemma_map_push_step(keys@, key, |k: SortKey| k@, files@, |f: FileMap| file_key(f@), i as int);
        }
        keys.push(key);
    }
    assert(files@.take(files@.len() as int) =~= files@);
    keys
}

/// The ranking keys of symbols.
fn symbol_keys(syms: &Vec<Symbol>) -> (keys: Vec<SortKey>)
    requires
        forall|i: int| 0 <= i < syms@.len() ==> symbol_scorable(#[trigger] syms@[i]@),
    ensures
        keys@.map_values(|k: SortKey| k@) == syms@.map_values(|s: Symbol| symbol_key(s@)),
{
    let mut keys: Vec<SortKey> = Vec::new();
    for i in 0..syms.len()
        invariant
            forall|i: int| 0 <= i < syms@.len() ==> symbol_scorable(#[trigger] syms@[i]@),
            keys@.map_values(|k: SortKey| k@) == syms@.take(i as int).map_values(
                |s: Symbol| symbol_key(s@),
            ),
    {
        let s = &syms[i];
        let score = symbol_score(s);
        let key = SortKey { primary: usize::MAX - score, text: bytes_of(s.name.as_str()), secondary: s.line };
        proof {
            lemma_map_push_step(keys@, key, |k: SortKey| k@, syms@, |s: Symbol| symbol_key(s@), i as int);
        }
        keys.push(key);
    }
    assert(syms@.take(syms@.len() as int) =~= syms@);
    keys
}


/// The first index from `k` on of a file with this path, or -1.
pub open spec fn path_index_from(files: Seq<FileMapView>, path: Seq<char>, k: int) -> int
    decreases files.len() - k,
{
    if k < 0 || k >= files.len() {
        -1
    } else if files[k].path == path {
        k
    } else {
        path_index_from(files, path, k + 1)
    }
}

/// The first index of a file with this path, or -1.
pub open spec fn path_index(files: Seq<FileMapView>, path: Seq<char>) -> int {
    path_index_from(files, path, 0)
}

/// `files` with `sym` appended to the first file with this path, or with a
/// new file of this path that holds `sym` alone.
pub open spec fn place_symbol(files: Seq<FileMapView>, path: Seq<char>, sym: SymbolView) -> Seq<FileMapView> {
    let i = path_index(files, path);
    if i >= 0 {
        files.update(i, FileMapView { path: files[i].path, symbols: files[i].symbols.push(sym) })
    } else {
        files.push(FileMapView { path, symbols: seq![sym] })
    }
}

/// The map with `sym` placed, if its JSON then takes at most `max` bytes;
/// else the map unchanged.
pub open spec fn offer_symbol(m: ContextMapView, path: Seq<char>, sym: SymbolView, max: usize) -> ContextMapView {
    let candidate = ContextMapView { root: m.root, files: place_symbol(m.files, path, sym) };
    if json_len(candidate) <= max {
        candidate
    } else {
        m
    }
}

/// The symbols offered one after the other.
pub open spec fn offer_symbols(m: ContextMapView, path: Seq<char>, syms: Seq<SymbolView>, max: usize) -> ContextMapView
    decreases syms.len(),
{
    if syms.len() == 0 {
        m
    } else {
        offer_symbol(offer_symbols(m, path, syms.drop_last(), max), path, syms.last(), max)
    }
}

/// The files offered one after the other, each with its ranked symbols.
pub open spec fn offer_files(m: ContextMapView, files: Seq<FileMapView>, max: usize) -> ContextMapView
    decreases files.len(),
{
    if files.len() == 0 {
        m
    } else {
        offer_symbols(
            offer_files(m, files.drop_last(), max),
            files.last().path,
            ranked_symbols(files.last().symbols),
            max,
        )
    }
}

/// A map with this root and no files.
pub open spec fn empty_map(root: Seq<char>) -> ContextMapView {
    ContextMapView { root, files: Seq::empty() }
}

/// The root cut to its first `len` characters and `...`, for each `len`
/// from one less than its length down to one.
pub open spec fn spec_truncated_roots(root: Seq<char>) -> Seq<Seq<char>> {
    if root.len() <= 1 {
        Seq::empty()
    } else {
        Seq::new((root.len() - 1) as nat, |i: int| root.take(root.len() - 1 - i) + "..."@)
    }
}

pub open spec fn push_new(cands: Seq<Seq<char>>, t: Seq<char>) -> Seq<Seq<char>> {
    if cands.contains(t) {
        cands
    } else {
        cands.push(t)
    }
}

/// Each of `ts`, in order, appended unless it is already there.
pub open spec fn push_all_new(cands: Seq<Seq<char>>, ts: Seq<Seq<char>>) -> Seq<Seq<char>>
    decreases ts.len(),
{
    if ts.len() == 0 {
        cands
    } else {
        push_new(push_all_new(cands, ts.drop_last()), ts.last())
    }
}

/// The roots tried for a map: the root itself, then its truncations, then
/// the empty root.
pub open spec fn spec_candidate_roots(root: Seq<char>) -> Seq<Seq<char>> {
    if root.len() == 0 {
        seq![root]
    } else {
        push_all_new(seq![root], spec_truncated_roots(root)).push(MIN_ROOT@)
    }
}

/// The first candidate whose empty map takes at most `max` bytes, or the
/// empty root.
pub open spec fn first_fit(cands: Seq<Seq<char>>, max: usize) -> Seq<char>
    decreases cands.len(),
{
    if cands.len() == 0 {
        MIN_ROOT@
    } else if json_len(empty_map(cands[0])) <= max {
        cands[0]
    } else {
        first_fit(cands.drop_first(), max)
    }
}

/// The root of a pruned map.
pub open spec fn minimal_root(root: Seq<char>, max: usize) -> Seq<char> {
    first_fit(spec_candidate_roots(root), max)
}

/// The byte limit that pruning keeps to: the requested bytes, or the size of
/// the smallest map there is if that is larger.
pub open spec fn effective_max_bytes(root: Seq<char>, tokens: usize) -> usize {
    let requested = requested_bytes(tokens);
    let smallest = json_len(empty_map(minimal_root(root, requested)));
    if requested >= smallest {
        requested
    } else {
        smallest as usize
    }
}

/// The map that a budget of `tokens` leaves of `full`.
pub open spec fn pruned_map(full: ContextMapView, tokens: usize) -> ContextMapView {
    let start = empty_map(minimal_root(full.root, requested_bytes(tokens)));
    offer_files(start, ranked_files(full.files), effective_max_bytes(full.root, tokens))
}

/// The map with the last symbol of its last file removed, and that file
/// removed when it has no symbol left.
pub open spec fn spec_drop_last_symbol(m: ContextMapView) -> ContextMapView {
    if m.files.len() == 0 {
        m
    } else {
        let f = m.files.last();
        let rest = if f.symbols.len() > 0 {
            f.symbols.drop_last()
        } else {
            f.symbols
        };
        if rest.len() == 0 {
            ContextMapView { root: m.root, files: m.files.drop_last() }
        } else {
            ContextMapView {
                root: m.root,
                files: m.files.drop_last().push(FileMapView { path: f.path, symbols: rest }),
            }
        }
    }
}

/// The index of the first file with this path.
fn find_path(files: &Vec<FileMap>, path: &String) -> (r: Option<usize>)
    ensures
        match r {
            Some(i) => i < files@.len() && path_index(files@.map_values(|f: FileMap| f@), path@) == i,
            None => path_index(files@.map_values(|f: FileMap| f@), path@) == -1,
        },
{
    let ghost fv = files@.map_values(|f: FileMap| f@);
    let n = files.len();
    let mut k: usize = 0;
    while k < n
        invariant
            k <= n,
            n == files@.len(),
            fv == files@.map_values(|f: FileMap| f@),
            path_index(fv, path@) == path_index_from(fv, path@, k as int),
        decreases n - k,
    {
        proof {
            assert(fv[k as int] == files@[k as int]@);
        }
        if files[k].path == *path {
            return Some(k);
        }
        k = k + 1;
    }
    None
}

/// Offers one symbol to the map under construction.
fn offer_symbol_to(pruned: &mut ContextMap, path: &String, symbol: Symbol, max_bytes: usize)
    ensures
        final(pruned)@ == offer_symbol(old(pruned)@, path@, symbol@, max_bytes),
{
    let ghost before = pruned@;
    let ghost sym = symbol@;
    match find_path(&pruned.files, path) {
        Some(i) => {
            let mut entry = pruned.files.remove(i);
            let ghost entry0 = entry;
            entry.symbols.push(symbol);
            pruned.files.insert(i, entry);
            proof {
                assert(entry.symbols@.map_values(|s: Symbol| s@) =~= entry0.symbols@.map_values(
                    |s: Symbol| s@,
                ).push(sym));
                assert(pruned@.files =~= place_symbol(before.files, path@, sym));
            }
            if serialized_len(pruned) > max_bytes {
                let mut entry = pruned.files.remove(i);
                let _ = entry.symbols.pop();
                pruned.files.insert(i, entry);
                proof {
                    assert(entry.symbols@ =~= entry0.symbols@);
                    assert(pruned@.files =~= before.files);
                }
            }
        },
        None => {
            let fresh = FileMap { path: path.clone(), symbols: vec![symbol] };
            proof {
                assert(fresh@.symbols =~= seq![sym]);
            }
            pruned.files.push(fresh);
            proof {
                assert(pruned@.files =~= place_symbol(before.files, path@, sym));
            }
            if serialized_len(pruned) > max_bytes {
                let _ = pruned.files.pop();
                proof {
                    assert(pruned@.files =~= before.files);
                }
            }
        },
    }
}


pub open spec fn strings_view(v: Seq<String>) -> Seq<Seq<char>> {
    v.map_values(|s: String| s@)
}

/// The root cut to its first `len` characters and `...`, for each `len`
/// from one less than its length down to one.
pub fn truncated_roots(root: &str) -> (r: Vec<String>)
    ensures
        strings_view(r@) == spec_truncated_roots(root@),
{
    let n = root.unicode_len();
    let mut results: Vec<String> = Vec::new();
    if n <= 1 {
        assert(strings_view(results@) =~= spec_truncated_roots(root@));
        return results;
    }
    let ghost target = spec_truncated_roots(root@);
    let mut len = n - 1;
    while len >= 1
        invariant
            n == root@.len(),
            n > 1,
            len <= n - 1,
            target == spec_truncated_roots(root@),
            strings_view(results@) == target.take((n - 1 - len) as int),
        decreases len,
    {
        let mut truncated = String::from_str(root.substring_char(0, len));
        truncated.append("...");
        let ghost prev = results@;
        results.push(truncated);
        proof {
            assert(target[(n - 1 - len) as int] == root@.take(len as int) + "..."@);
            assert(root@.subrange(0, len as int) =~= root@.take(len as int));
            assert(strings_view(prev).len() == prev.len());
            assert(prev.len() == n - 1 - len);
            assert(strings_view(results@) =~= strings_view(prev).push(results@.last()@));
            assert(target.take((n - 1 - len + 1) as int) =~= target.take((n - 1 - len) as int).push(
                target[(n - 1 - len) as int],
            ));
            assert(strings_view(results@) =~= target.take((n - 1 - len + 1) as int));
        }
        len = len - 1;
    }
    assert(target.take((n - 1) as int) =~= target);
    results
}

/// Whether `cands` holds a string equal to `t`.
fn contains_string(cands: &Vec<String>, t: &String) -> (b: bool)
    ensures
        b == strings_view(cands@).contains(t@),
{
    let ghost cv = strings_view(cands@);
    for i in 0..cands.len()
        invariant
            cv == strings_view(cands@),
            forall|k: int| 0 <= k < i ==> cv[k] != t@,
    {
        if cands[i] == *t {
            proof {
                assert(cv[i as int] == t@);
            }
            return true;
        }
    }
    false
}

/// The roots tried for a map: the root itself, then its truncations that
/// differ from it, then the empty root.
pub fn candidate_roots(root: &str) -> (r: Vec<String>)
    ensures
        strings_view(r@) == spec_candidate_roots(root@),
{
    let mut candidates: Vec<String> = Vec::new();
    candidates.push(String::from_str(root));
    proof {
        assert(strings_view(candidates@) =~= seq![root@]);
    }
    if !root.is_empty() {
        let truncated = truncated_roots(root);
        let ghost ts = strings_view(truncated@);
        for i in 0..truncated.len()
            invariant
                ts == strings_view(truncated@),
                strings_view(candidates@) == push_all_new(seq![root@], ts.take(i as int)),
        {
            proof {
                assert(ts.take(i + 1).drop_last() =~= ts.take(i as int));
                assert(ts.take(i + 1).last() == truncated@[i as int]@);
            }
            if !contains_string(&candidates, &truncated[i]) {
                let ghost prev = candidates@;
                candidates.push(truncated[i].clone());
                proof {
                    assert(strings_view(candidates@) =~= strings_view(prev).push(truncated@[i as int]@));
                }
            }
        }
        proof {
            assert(ts.take(truncated@.len() as int) =~= ts);
        }
        let ghost prev = candidates@;
        candidates.push(String::from_str(MIN_ROOT));
        proof {
            assert(strings_view(candidates@) =~= strings_view(prev).push(MIN_ROOT@));
        }
    }
    candidates
}

/// The map with no files and the first root that fits in `max_bytes`.
pub fn minimal_map(root: &str, max_bytes: usize) -> (r: ContextMap)
    ensures
        r@ == empty_map(minimal_root(root@, max_bytes)),
{
    let candidates = candidate_roots(root);
    let ghost cv = strings_view(candidates@);
    assert(cv.skip(0) =~= cv);
    for i in 0..candidates.len()
        invariant
            cv == strings_view(candidates@),
            cv == spec_candidate_roots(root@),
            first_fit(cv, max_bytes) == first_fit(cv.skip(i as int), max_bytes),
    {
        let candidate = ContextMap { root: candidates[i].clone(), files: Vec::new() };
        proof {
            assert(candidate@.files =~= Seq::<FileMapView>::empty());
            assert(candidate@ == empty_map(cv[i as int]));
            assert(cv.skip(i as int)[0] == cv[i as int]);
            assert(cv.skip(i as int).drop_first() =~= cv.skip(i + 1));
        }
        if serialized_len(&candidate) <= max_bytes {
            return candidate;
        }
    }
    proof {
        assert(cv.skip(cv.len() as int) =~= Seq::<Seq<char>>::empty());
    }
    let r = ContextMap { root: String::from_str(MIN_ROOT), files: Vec::new() };
    assert(r@.files =~= Seq::<FileMapView>::empty());
    assert(r@ == empty_map(MIN_ROOT@));
    r
}

/// Removes the last symbol of the last file, and that file when it has no
/// symbol left; says whether there was a file.
pub fn drop_last_symbol(map: &mut ContextMap) -> (dropped: bool)
    ensures
        dropped == (old(map)@.files.len() > 0),
        final(map)@ == spec_drop_last_symbol(old(map)@),
{
    let ghost before = map@;
    match map.files.pop() {
        Some(mut file) => {
            let ghost f0 = file;
            proof {
                assert(before.files.last() == f0@);
                assert(map@.files =~= before.files.drop_last());
            }
            let _ = file.symbols.pop();
            proof {
                assert(file@.symbols =~= (if f0@.symbols.len() > 0 {
                    f0@.symbols.drop_last()
                } else {
                    f0@.symbols
                }));
            }
            if !file.symbols.is_empty() {
                let ghost mid = map@;
                map.files.push(file);
                proof {
                    assert(map@.files =~= mid.files.push(file@));
                }
            }
            true
        },
        None => {
            assert(map@ =~= before);
            false
        },
    }
}


/// Prunes a map to the bytes that a budget allows.
///
/// The files are offered in order of score, highest first, and within each
/// file its symbols in order of score; a symbol is kept when the JSON of the
/// map with it still fits. The root is the first of the root, its
/// truncations and the empty root whose map without files fits; where none
/// fits, the limit is raised to the size of the map with the empty root.
pub fn apply_budget(full_map: &ContextMap, budget: Budget) -> (res: (ContextMap, BudgetSummary))
    requires
        scorable(full_map@),
    ensures
        res.0@ == pruned_map(full_map@, budget.tokens()),
        res.1.max_tokens == budget.tokens(),
        res.1.requested_max_bytes == requested_bytes(budget.tokens()),
        res.1.max_bytes == effective_max_bytes(full_map@.root, budget.tokens()),
        res.1.output_bytes == json_len(res.0@),
        res.1.output_bytes <= res.1.max_bytes,
        res.1.indexed_files == full_map@.files.len(),
        res.1.retained_files == res.0@.files.len(),
{
    let requested_max_bytes = budget.max_bytes();
    let ghost fv = full_map@.files;
    proof {
        assert forall|i: int| 0 <= i < full_map.files@.len() implies file_scorable(
            #[trigger] full_map.files@[i]@,
        ) by {
            assert(fv[i] == full_map.files@[i]@);
        }
    }
    let keys = file_keys(&full_map.files);
    let ranked_idx = rank(&keys);
    let ghost rf = ranked_files(fv);
    proof {
        assert(keys@.map_values(|k: SortKey| k@) =~= fv.map_values(|f: FileMapView| file_key(f)));
    }
    let empty = minimal_map(full_map.root.as_str(), requested_max_bytes);
    let smallest = serialized_len(&empty);
    let max_bytes = if requested_max_bytes >= smallest {
        requested_max_bytes
    } else {
        smallest
    };
    let mut pruned = empty;
    let ghost start = pruned@;
    proof {
        assert(rf.take(0) =~= Seq::<FileMapView>::empty());
    }
    for i in 0..ranked_idx.len()
        invariant
            fv == full_map@.files,
            scorable(full_map@),
            rf == ranked_files(fv),
            ranked_idx@ == ranked(fv.map_values(|f: FileMapView| file_key(f)), fv.len()),
            ranked_idx@.len() == fv.len(),
            forall|m: int| 0 <= m < ranked_idx@.len() ==> #[trigger] ranked_idx@[m] < fv.len(),
            pruned@ == offer_files(start, rf.take(i as int), max_bytes),
            json_len(pruned@) <= max_bytes,
    {
        let fi = ranked_idx[i];
        let file = &full_map.files[fi];
        proof {
            assert(rf[i as int] == fv[fi as int]);
            assert(fv[fi as int] == file@);
            assert(file_scorable(file@));
            assert forall|k: int| 0 <= k < file.symbols@.len() implies symbol_scorable(
                #[trigger] file.symbols@[k]@,
            ) by {
                assert(file@.symbols[k] == file.symbols@[k]@);
            }
        }
        let skeys = symbol_keys(&file.symbols);
        let sorder = rank(&skeys);
        let ghost sv = file@.symbols;
        let ghost rs = ranked_symbols(sv);
        let ghost at_file = pruned@;
        proof {
            assert(skeys@.map_values(|k: SortKey| k@) =~= sv.map_values(|s: SymbolView| symbol_key(s)));
            assert(rs.take(0) =~= Seq::<SymbolView>::empty());
        }
        for k in 0..sorder.len()
            invariant
                sv == file@.symbols,
                rs == ranked_symbols(sv),
                sorder@ == ranked(sv.map_values(|s: SymbolView| symbol_key(s)), sv.len()),
                sorder@.len() == sv.len(),
                forall|m: int| 0 <= m < sorder@.len() ==> #[trigger] sorder@[m] < sv.len(),
                pruned@ == offer_symbols(at_file, file@.path, rs.take(k as int), max_bytes),
                json_len(pruned@) <= max_bytes,
        {
            let si = sorder[k];
            let symbol = file.symbols[si].clone();
            proof {
                assert(rs[k as int] == sv[si as int]);
                assert(sv[si as int] == file.symbols@[si as int]@);
                assert(rs.take(k + 1).drop_last() =~= rs.take(k as int));
            }
            offer_symbol_to(&mut pruned, &file.path, symbol, max_bytes);
        }
        proof {
            assert(rs.take(sorder@.len() as int) =~= rs);
            assert(rf.take(i + 1).drop_last() =~= rf.take(i as int));
        }
    }
    proof {
        assert(rf.take(ranked_idx@.len() as int) =~= rf);
    }
    let ghost result = pruned@;
    loop
        invariant
            json_len(pruned@) <= max_bytes,
            pruned@ == result,
        ensures
            pruned@ == result,
        decreases pruned@.files.len(),
    {
        if serialized_len(&pruned) <= max_bytes {
            break;
        }
        if !drop_last_symbol(&mut pruned) {
            break;
        }
    }
    let output_bytes = serialized_len(&pruned);
    let summary = BudgetSummary {
        max_tokens: budget.max_tokens(),
        max_bytes,
        requested_max_bytes,
        output_bytes,
        indexed_files: full_map.files.len(),
        retained_files: pruned.files.len(),
    };
    (pruned, summary)
}


proof fn lemma_first_fit(cands: Seq<Seq<char>>, max: usize)
    ensures
        json_len(empty_map(first_fit(cands, max))) <= max || (first_fit(cands, max) == MIN_ROOT@
            && forall|i: int| 0 <= i < cands.len() ==> json_len(empty_map(#[trigger] cands[i])) > max),
    decreases cands.len(),
{
    if cands.len() > 0 && json_len(empty_map(cands[0])) > max {
        let rest = cands.drop_first();
        lemma_first_fit(rest, max);
        if json_len(empty_map(first_fit(rest, max))) > max {
            assert forall|i: int| 0 <= i < cands.len() implies json_len(empty_map(#[trigger] cands[i])) > max by {
                if i > 0 {
                    assert(cands[i] == rest[i - 1]);
                }
            }
        }
    }
}

proof fn lemma_candidates_end_with_empty(root: Seq<char>)
    ensures
        spec_candidate_roots(root).len() > 0,
        spec_candidate_roots(root).last() == MIN_ROOT@,
{
    reveal_strlit("");
    if root.len() == 0 {
        assert(root =~= MIN_ROOT@);
    }
}

/// The byte limit of a pruning is the requested bytes where they are at
/// least 22, the size of `{"root":"","files":[]}`, and 22 otherwise; the
/// map without files that pruning starts from fits in it.
pub proof fn law_effective_max_bytes(root: Seq<char>, tokens: usize)
    ensures
        effective_max_bytes(root, tokens) == (if requested_bytes(tokens) >= 22 {
            requested_bytes(tokens)
        } else {
            22
        }),
        json_len(empty_map(minimal_root(root, requested_bytes(tokens)))) <= effective_max_bytes(
            root,
            tokens,
        ),
{
    let cands = spec_candidate_roots(root);
    let req = requested_bytes(tokens);
    lemma_first_fit(cands, req);
    lemma_candidates_end_with_empty(root);
    let r = first_fit(cands, req);
    reveal_strlit("");
    lemma_empty_map_len(r);
    lemma_empty_map_len(MIN_ROOT@);
    let last = cands.len() - 1;
    assert(cands[last] == MIN_ROOT@);
    if req >= 22 {
        assert(json_len(empty_map(cands[last])) <= req);
    }
}

proof fn lemma_offer_symbols_fits(m: ContextMapView, path: Seq<char>, syms: Seq<SymbolView>, max: usize)
    requires
        json_len(m) <= max,
    ensures
        json_len(offer_symbols(m, path, syms, max)) <= max,
    decreases syms.len(),
{
    if syms.len() > 0 {
        lemma_offer_symbols_fits(m, path, syms.drop_last(), max);
    }
}

proof fn lemma_offer_files_fits(m: ContextMapView, files: Seq<FileMapView>, max: usize)
    requires
        json_len(m) <= max,
    ensures
        json_len(offer_files(m, files, max)) <= max,
    decreases files.len(),
{
    if files.len() > 0 {
        lemma_offer_files_fits(m, files.drop_last(), max);
        lemma_offer_symbols_fits(
            offer_files(m, files.drop_last(), max),
            files.last().path,
            ranked_symbols(files.last().symbols),
            max,
        );
    }
}

/// The JSON of a pruned map fits in the byte limit of the pruning.
pub proof fn law_pruned_map_fits(full: ContextMapView, tokens: usize)
    ensures
        json_len(pruned_map(full, tokens)) <= effective_max_bytes(full.root, tokens),
{
    let start = empty_map(minimal_root(full.root, requested_bytes(tokens)));
    law_effective_max_bytes(full.root, tokens);
    lemma_offer_files_fits(start, ranked_files(full.files), effective_max_bytes(full.root, tokens));
}

proof fn lemma_path_index_from(files: Seq<FileMapView>, path: Seq<char>, k: int)
    requires
        0 <= k,
    ensures
        path_index_from(files, path, k) == -1 <==> (forall|j: int| k <= j < files.len() ==> #[trigger] files[j].path != path),
        path_index_from(files, path, k) >= 0 ==> {
            let r = path_index_from(files, path, k);
            &&& k <= r < files.len()
            &&& files[r].path == path
            &&& forall|j: int| k <= j < r ==> #[trigger] files[j].path != path
        },
        path_index_from(files, path, k) >= -1,
    decreases files.len() - k,
{
    if k < files.len() && files[k].path != path {
        lemma_path_index_from(files, path, k + 1);
    }
}

/// The number of files, plus one where no file has the path.
pub open spec fn files_and_gap(files: Seq<FileMapView>, path: Seq<char>) -> int {
    files.len() + if path_index(files, path) >= 0 {
        0int
    } else {
        1int
    }
}

proof fn lemma_offer_symbol_count(m: ContextMapView, path: Seq<char>, sym: SymbolView, max: usize)
    ensures
        files_and_gap(offer_symbol(m, path, sym, max).files, path) <= files_and_gap(m.files, path),
{
    let files = m.files;
    let placed = place_symbol(files, path, sym);
    lemma_path_index_from(files, path, 0);
    lemma_path_index_from(placed, path, 0);
    let i = path_index(files, path);
    if i >= 0 {
        assert(placed[i].path == path);
        assert(path_index(placed, path) >= 0) by {
            if path_index(placed, path) == -1 {
                assert(placed[i].path != path);
            }
        }
    } else {
        let n = files.len() as int;
        assert(placed[n].path == path);
        assert(path_index(placed, path) >= 0) by {
            if path_index(placed, path) == -1 {
                assert(placed[n].path != path);
            }
        }
    }
}

proof fn lemma_offer_symbols_count(m: ContextMapView, path: Seq<char>, syms: Seq<SymbolView>, max: usize)
    ensures
        files_and_gap(offer_symbols(m, path, syms, max).files, path) <= files_and_gap(m.files, path),
    decreases syms.len(),
{
    if syms.len() > 0 {
        lemma_offer_symbols_count(m, path, syms.drop_last(), max);
        lemma_offer_symbol_count(offer_symbols(m, path, syms.drop_last(), max), path, syms.last(), max);
    }
}

proof fn lemma_offer_files_count(m: ContextMapView, files: Seq<FileMapView>, max: usize)
    ensures
        offer_files(m, files, max).files.len() <= m.files.len() + files.len(),
    decreases files.len(),
{
    if files.len() > 0 {
        let before = offer_files(m, files.drop_last(), max);
        lemma_offer_files_count(m, files.drop_last(), max);
        lemma_offer_symbols_count(before, files.last().path, ranked_symbols(files.last().symbols), max);
    }
}

/// A pruned map holds no more files than the map it was pruned from.
pub proof fn law_retained_files(full: ContextMapView, tokens: usize)
    ensures
        pruned_map(full, tokens).files.len() <= full.files.len(),
{
    let start = empty_map(minimal_root(full.root, requested_bytes(tokens)));
    let keys = full.files.map_values(|f: FileMapView| file_key(f));
    lemma_ranked_len(keys, full.files.len());
    lemma_offer_files_count(start, ranked_files(full.files), effective_max_bytes(full.root, tokens));
}


proof fn lemma_plain_number(digits: Seq<char>)
    requires
        digits.len() > 0,
        all_digits(digits),
    ensures
        trim(digits) == digits,
        ascii_lower(digits) == digits,
        parse_usize(digits) == (if digits_value(digits) <= usize::MAX {
            Some(digits_value(digits) as usize)
        } else {
            None::<usize>
        }),
{
    assert(is_digit(digits[0]));
    assert(is_digit(digits.last()));
    lemma_trim_unchanged(digits);
    assert forall|i: int| 0 <= i < digits.len() implies ascii_lower(digits)[i] == digits[i] by {
        assert(is_digit(digits[i]));
    }
    assert(ascii_lower(digits) =~= digits);
}

/// A number of decimal digits is a budget of that many tokens when it is
/// neither zero nor too large for `usize`.
pub proof fn law_plain_budget(digits: Seq<char>)
    requires
        digits.len() > 0,
        all_digits(digits),
        0 < digits_value(digits) <= usize::MAX,
    ensures
        parse_budget(digits) == Ok::<usize, Seq<char>>(digits_value(digits) as usize),
{
    lemma_plain_number(digits);
    assert(is_digit(digits.last()));
}

/// Digits followed by `k` or `K` are a budget of a thousand tokens per unit,
/// when that is neither zero nor too large for `usize`.
pub proof fn law_thousands_budget(digits: Seq<char>, suffix: char)
    requires
        digits.len() > 0,
        all_digits(digits),
        suffix == 'k' || suffix == 'K',
        0 < digits_value(digits) * 1000 <= usize::MAX,
    ensures
        parse_budget(digits.push(suffix)) == Ok::<usize, Seq<char>>((digits_value(digits) * 1000) as usize),
{
    let s = digits.push(suffix);
    lemma_plain_number(digits);
    assert(s[0] == digits[0]);
    assert(is_digit(digits[0]));
    assert(!is_white_space(s.last()));
    lemma_trim_unchanged(s);
    let lowered = ascii_lower(s);
    assert(lowered.last() == 'k');
    assert forall|i: int| 0 <= i < digits.len() implies lowered.drop_last()[i] == digits[i] by {
        assert(s[i] == digits[i]);
        assert(is_digit(digits[i]));
    }
    assert(lowered.drop_last() =~= digits);
}

proof fn lemma_offer_symbols_root(m: ContextMapView, path: Seq<char>, syms: Seq<SymbolView>, max: usize)
    ensures
        offer_symbols(m, path, syms, max).root == m.root,
    decreases syms.len(),
{
    if syms.len() > 0 {
        lemma_offer_symbols_root(m, path, syms.drop_last(), max);
    }
}

proof fn lemma_offer_files_root(m: ContextMapView, files: Seq<FileMapView>, max: usize)
    ensures
        offer_files(m, files, max).root == m.root,
    decreases files.len(),
{
    if files.len() > 0 {
        lemma_offer_files_root(m, files.drop_last(), max);
        lemma_offer_symbols_root(
            offer_files(m, files.drop_last(), max),
            files.last().path,
            ranked_symbols(files.last().symbols),
            max,
        );
    }
}

proof fn lemma_first_fit_member(cands: Seq<Seq<char>>, max: usize)
    ensures
        cands.contains(first_fit(cands, max)) || first_fit(cands, max) == MIN_ROOT@,
    decreases cands.len(),
{
    if cands.len() > 0 {
        if json_len(empty_map(cands[0])) <= max {
            assert(cands[0] == cands[0]);
        } else {
            let rest = cands.drop_first();
            lemma_first_fit_member(rest, max);
            if rest.contains(first_fit(rest, max)) {
                let i = choose|i: int| 0 <= i < rest.len() && rest[i] == first_fit(rest, max);
                assert(cands[i + 1] == rest[i]);
            }
        }
    }
}

/// The root of a pruned map is one of the roots tried: the root itself, one
/// of its truncations, or the empty root.
pub proof fn law_pruned_root(full: ContextMapView, tokens: usize)
    ensures
        spec_candidate_roots(full.root).contains(pruned_map(full, tokens).root),
{
    let cands = spec_candidate_roots(full.root);
    let req = requested_bytes(tokens);
    let start = empty_map(minimal_root(full.root, req));
    lemma_offer_files_root(start, ranked_files(full.files), effective_max_bytes(full.root, tokens));
    lemma_first_fit_member(cands, req);
    lemma_candidates_end_with_empty(full.root);
    assert(cands[cands.len() - 1] == MIN_ROOT@);
}


/// `sym` is a symbol of a file of `files` with this path.
pub open spec fn holds_symbol(files: Seq<FileMapView>, path: Seq<char>, sym: SymbolView) -> bool {
    exists|j: int, l: int|
        0 <= j < files.len() && 0 <= l < files[j].symbols.len() && #[trigger] files[j].symbols[l]
            == sym && files[j].path == path
}

/// Every symbol of `part` is a symbol of `whole` under the same path.
pub open spec fn drawn_from(part: Seq<FileMapView>, whole: Seq<FileMapView>) -> bool {
    forall|i: int, k: int|
        0 <= i < part.len() && 0 <= k < part[i].symbols.len() ==> holds_symbol(
            whole,
            part[i].path,
            #[trigger] part[i].symbols[k],
        )
}

proof fn lemma_offer_symbol_drawn(m: ContextMapView, path: Seq<char>, sym: SymbolView, max: usize, whole: Seq<FileMapView>)
    requires
        drawn_from(m.files, whole),
        holds_symbol(whole, path, sym),
    ensures
        drawn_from(offer_symbol(m, path, sym, max).files, whole),
{
    let files = m.files;
    let placed = place_symbol(files, path, sym);
    lemma_path_index_from(files, path, 0);
    let idx = path_index(files, path);
    assert forall|i: int, k: int| 0 <= i < placed.len() && 0 <= k < placed[i].symbols.len() implies holds_symbol(
        whole,
        placed[i].path,
        #[trigger] placed[i].symbols[k],
    ) by {
        if idx >= 0 {
            if i == idx {
                if k < files[i].symbols.len() {
                    assert(placed[i].symbols[k] == files[i].symbols[k]);
                } else {
                    assert(placed[i].symbols[k] == sym);
                }
            } else {
                assert(placed[i] == files[i]);
            }
        } else {
            if i < files.len() {
                assert(placed[i] == files[i]);
            } else {
                assert(placed[i].symbols[k] == sym);
            }
        }
    }
}

proof fn lemma_offer_symbols_drawn(m: ContextMapView, path: Seq<char>, syms: Seq<SymbolView>, max: usize, whole: Seq<FileMapView>)
    requires
        drawn_from(m.files, whole),
        forall|k: int| 0 <= k < syms.len() ==> holds_symbol(whole, path, #[trigger] syms[k]),
    ensures
        drawn_from(offer_symbols(m, path, syms, max).files, whole),
    decreases syms.len(),
{
    if syms.len() > 0 {
        let d = syms.drop_last();
        assert forall|k: int| 0 <= k < d.len() implies holds_symbol(whole, path, #[trigger] d[k]) by {
            assert(d[k] == syms[k]);
        }
        lemma_offer_symbols_drawn(m, path, d, max, whole);
        assert(holds_symbol(whole, path, syms[syms.len() - 1]));
        lemma_offer_symbol_drawn(offer_symbols(m, path, d, max), path, syms.last(), max, whole);
    }
}

proof fn lemma_offer_files_drawn(m: ContextMapView, files: Seq<FileMapView>, max: usize, whole: Seq<FileMapView>)
    requires
        drawn_from(m.files, whole),
        forall|i: int| 0 <= i < files.len() ==> whole.contains(#[trigger] files[i]),
        forall|i: int| 0 <= i < whole.len() ==> #[trigger] whole[i].symbols.len() <= usize::MAX,
    ensures
        drawn_from(offer_files(m, files, max).files, whole),
    decreases files.len(),
{
    if files.len() > 0 {
        let d = files.drop_last();
        assert forall|i: int| 0 <= i < d.len() implies whole.contains(#[trigger] d[i]) by {
            assert(d[i] == files[i]);
        }
        lemma_offer_files_drawn(m, d, max, whole);
        let f = files.last();
        assert(files[files.len() - 1] == f);
        let j = choose|j: int| 0 <= j < whole.len() && whole[j] == f;
        assert(whole[j].symbols.len() <= usize::MAX);
        let syms = ranked_symbols(f.symbols);
        let keys = f.symbols.map_values(|s: SymbolView| symbol_key(s));
        let order = ranked(keys, f.symbols.len());
        lemma_ranked_len(keys, f.symbols.len());
        lemma_ranked_bounds(keys, f.symbols.len());
        assert forall|k: int| 0 <= k < syms.len() implies holds_symbol(whole, f.path, #[trigger] syms[k]) by {
            let l = order[k] as int;
            assert(syms[k] == f.symbols[l]);
            assert(whole[j].symbols[l] == syms[k]);
        }
        lemma_offer_symbols_drawn(offer_files(m, d, max), f.path, syms, max, whole);
    }
}

/// A pruned map keeps symbols of the map it was pruned from, each under the
/// path of a file that holds it there.
pub proof fn law_pruned_symbols_come_from_full(full: ContextMapView, tokens: usize)
    requires
        full.files.len() <= usize::MAX,
        forall|i: int| 0 <= i < full.files.len() ==> #[trigger] full.files[i].symbols.len() <= usize::MAX,
    ensures
        drawn_from(pruned_map(full, tokens).files, full.files),
{
    let start = empty_map(minimal_root(full.root, requested_bytes(tokens)));
    let files = ranked_files(full.files);
    let keys = full.files.map_values(|f: FileMapView| file_key(f));
    let order = ranked(keys, full.files.len());
    lemma_ranked_len(keys, full.files.len());
    lemma_ranked_bounds(keys, full.files.len());
    assert forall|i: int| 0 <= i < files.len() implies full.files.contains(#[trigger] files[i]) by {
        let j = order[i] as int;
        assert(files[i] == full.files[j]);
    }
    lemma_offer_files_drawn(start, files, effective_max_bytes(full.root, tokens), full.files);
}


/// Files are offered highest score first, files of equal score in the
/// order of their paths, and every file is offered.
pub proof fn law_ranked_files(files: Seq<FileMapView>)
    requires
        files.len() <= usize::MAX,
    ensures
        ranked_files(files).len() == files.len(),
        forall|i: int| 0 <= i < files.len() ==> ranked_files(files).contains(#[trigger] files[i]),
        forall|a: int, b: int|
            0 <= a < b < ranked_files(files).len() ==> spec_file_score(#[trigger] ranked_files(files)[a])
                >= spec_file_score(#[trigger] ranked_files(files)[b]),
        forall|a: int, b: int|
            0 <= a < b < ranked_files(files).len() && spec_file_score(#[trigger] ranked_files(files)[a])
                == spec_file_score(#[trigger] ranked_files(files)[b]) ==> !bytes_lt(
                encode_utf8(ranked_files(files)[b].path),
                encode_utf8(ranked_files(files)[a].path),
            ),
{
    let keys = files.map_values(|f: FileMapView| file_key(f));
    let n = files.len();
    let r = ranked(keys, n);
    let rf = ranked_files(files);
    lemma_ranked_len(keys, n);
    lemma_ranked_bounds(keys, n);
    lemma_ranked_sorted(keys, n);
    lemma_ranked_covers(keys, n);
    assert forall|i: int| 0 <= i < n implies rf.contains(#[trigger] files[i]) by {
        assert(r.contains(i as usize));
        let m = choose|m: int| 0 <= m < r.len() && r[m] == i as usize;
        assert(rf[m] == files[i]);
    }
    assert forall|a: int, b: int| 0 <= a < b < rf.len() implies spec_file_score(#[trigger] rf[a]) >= spec_file_score(
        #[trigger] rf[b],
    ) && (spec_file_score(rf[a]) == spec_file_score(rf[b]) ==> !bytes_lt(encode_utf8(rf[b].path), encode_utf8(rf[a].path))) by {
        assert(precedes(keys, r[a], r[b]));
        assert(rf[a] == files[r[a] as int]);
        assert(rf[b] == files[r[b] as int]);
        assert(keys[r[a] as int] == file_key(rf[a]));
        assert(keys[r[b] as int] == file_key(rf[b]));
        if spec_file_score(rf[a]) == spec_file_score(rf[b]) && bytes_lt(encode_utf8(rf[b].path), encode_utf8(rf[a].path)) {
            crate::text::lemma_bytes_lt_irreflexive(encode_utf8(rf[a].path));
            if bytes_lt(encode_utf8(rf[a].path), encode_utf8(rf[b].path)) {
                crate::text::lemma_bytes_lt_transitive(encode_utf8(rf[a].path), encode_utf8(rf[b].path), encode_utf8(rf[a].path));
            }
        }
    }
}

/// The symbols of a file are offered highest score first, symbols of equal
/// score in the order of their names, then of their lines, and every symbol
/// is offered.
pub proof fn law_ranked_symbols(syms: Seq<SymbolView>)
    requires
        syms.len() <= usize::MAX,
    ensures
        ranked_symbols(syms).len() == syms.len(),
        forall|i: int| 0 <= i < syms.len() ==> ranked_symbols(syms).contains(#[trigger] syms[i]),
        forall|a: int, b: int|
            0 <= a < b < ranked_symbols(syms).len() ==> spec_symbol_score(#[trigger] ranked_symbols(syms)[a])
                >= spec_symbol_score(#[trigger] ranked_symbols(syms)[b]),
        forall|a: int, b: int|
            0 <= a < b < ranked_symbols(syms).len() && spec_symbol_score(#[trigger] ranked_symbols(syms)[a])
                == spec_symbol_score(#[trigger] ranked_symbols(syms)[b]) ==> !bytes_lt(
                encode_utf8(ranked_symbols(syms)[b].name),
                encode_utf8(ranked_symbols(syms)[a].name),
            ),
{
    let keys = syms.map_values(|s: SymbolView| symbol_key(s));
    let n = syms.len();
    let r = ranked(keys, n);
    let rs = ranked_symbols(syms);
    lemma_ranked_len(keys, n);
    lemma_ranked_bounds(keys, n);
    lemma_ranked_sorted(keys, n);
    lemma_ranked_covers(keys, n);
    assert forall|i: int| 0 <= i < n implies rs.contains(#[trigger] syms[i]) by {
        assert(r.contains(i as usize));
        let m = choose|m: int| 0 <= m < r.len() && r[m] == i as usize;
        assert(rs[m] == syms[i]);
    }
    assert forall|a: int, b: int| 0 <= a < b < rs.len() implies spec_symbol_score(#[trigger] rs[a]) >= spec_symbol_score(
        #[trigger] rs[b],
    ) && (spec_symbol_score(rs[a]) == spec_symbol_score(rs[b]) ==> !bytes_lt(encode_utf8(rs[b].name), encode_utf8(rs[a].name))) by {
        assert(precedes(keys, r[a], r[b]));
        assert(rs[a] == syms[r[a] as int]);
        assert(rs[b] == syms[r[b] as int]);
        assert(keys[r[a] as int] == symbol_key(rs[a]));
        assert(keys[r[b] as int] == symbol_key(rs[b]));
        if spec_symbol_score(rs[a]) == spec_symbol_score(rs[b]) && bytes_lt(encode_utf8(rs[b].name), encode_utf8(rs[a].name)) {
            crate::text::lemma_bytes_lt_irreflexive(encode_utf8(rs[a].name));
            if bytes_lt(encode_utf8(rs[a].name), encode_utf8(rs[b].name)) {
                crate::text::lemma_bytes_lt_transitive(encode_utf8(rs[a].name), encode_utf8(rs[b].name), encode_utf8(rs[a].name));
            }
        }
    }
}


/// Every symbol placed, none refused.
pub open spec fn place_all(files: Seq<FileMapView>, path: Seq<char>, syms: Seq<SymbolView>) -> Seq<FileMapView>
    decreases syms.len(),
{
    if syms.len() == 0 {
        files
    } else {
        place_symbol(place_all(files, path, syms.drop_last()), path, syms.last())
    }
}

/// Every symbol of every file placed, in the order of the offers.
pub open spec fn place_files(acc: Seq<FileMapView>, files: Seq<FileMapView>) -> Seq<FileMapView>
    decreases files.len(),
{
    if files.len() == 0 {
        acc
    } else {
        place_all(
            place_files(acc, files.drop_last()),
            files.last().path,
            ranked_symbols(files.last().symbols),
        )
    }
}

/// The files of a map that keeps every symbol of `full`.
pub open spec fn kept_files(full: ContextMapView) -> Seq<FileMapView> {
    place_files(Seq::empty(), ranked_files(full.files))
}

proof fn lemma_place_symbol_grows(root: Seq<char>, files: Seq<FileMapView>, path: Seq<char>, sym: SymbolView)
    ensures
        json_len(ContextMapView { root, files: place_symbol(files, path, sym) }) > json_len(
            ContextMapView { root, files },
        ),
{
    let placed = place_symbol(files, path, sym);
    let fj = files_json(files);
    let pj = files_json(placed);
    lemma_map_json_len(ContextMapView { root, files });
    lemma_map_json_len(ContextMapView { root, files: placed });
    lemma_join_len(fj);
    lemma_join_len(pj);
    lemma_symbol_json_nonempty(sym);
    let i = path_index(files, path);
    if i >= 0 {
        lemma_path_index_from(files, path, 0);
        let f = files[i];
        let g = placed[i];
        assert(pj =~= fj.update(i, file_json(g)));
        lemma_bytes_total_update(fj, i, file_json(g));
        let sj = symbols_json(f.symbols);
        let gj = symbols_json(g.symbols);
        assert(gj =~= sj.push(symbol_json(sym)));
        lemma_file_json_len(f);
        lemma_file_json_len(g);
        lemma_join_len(sj);
        lemma_join_len(gj);
        assert(gj.drop_last() =~= sj);
        assert(fj[i] == file_json(f));
    } else {
        let nf = FileMapView { path, symbols: seq![sym] };
        assert(pj =~= fj.push(file_json(nf)));
        assert(pj.drop_last() =~= fj);
        lemma_file_json_len(nf);
        let nj = symbols_json(nf.symbols);
        lemma_join_len(nj);
        assert(nj.drop_last() =~= Seq::<Seq<char>>::empty());
    }
}

proof fn lemma_place_all_grows(root: Seq<char>, files: Seq<FileMapView>, path: Seq<char>, syms: Seq<SymbolView>)
    ensures
        json_len(ContextMapView { root, files }) <= json_len(
            ContextMapView { root, files: place_all(files, path, syms) },
        ),
    decreases syms.len(),
{
    if syms.len() > 0 {
        lemma_place_all_grows(root, files, path, syms.drop_last());
        lemma_place_symbol_grows(root, place_all(files, path, syms.drop_last()), path, syms.last());
    }
}

proof fn lemma_place_files_grows(root: Seq<char>, acc: Seq<FileMapView>, files: Seq<FileMapView>)
    ensures
        json_len(ContextMapView { root, files: acc }) <= json_len(
            ContextMapView { root, files: place_files(acc, files) },
        ),
    decreases files.len(),
{
    if files.len() > 0 {
        lemma_place_files_grows(root, acc, files.drop_last());
        lemma_place_all_grows(
            root,
            place_files(acc, files.drop_last()),
            files.last().path,
            ranked_symbols(files.last().symbols),
        );
    }
}

proof fn lemma_offer_all_symbols(m: ContextMapView, path: Seq<char>, syms: Seq<SymbolView>, max: usize)
    requires
        json_len(ContextMapView { root: m.root, files: place_all(m.files, path, syms) }) <= max,
    ensures
        offer_symbols(m, path, syms, max) == (ContextMapView {
            root: m.root,
            files: place_all(m.files, path, syms),
        }),
    decreases syms.len(),
{
    if syms.len() > 0 {
        let d = syms.drop_last();
        lemma_place_symbol_grows(m.root, place_all(m.files, path, d), path, syms.last());
        lemma_offer_all_symbols(m, path, d, max);
    }
}

proof fn lemma_offer_all_files(m: ContextMapView, files: Seq<FileMapView>, max: usize)
    requires
        json_len(ContextMapView { root: m.root, files: place_files(m.files, files) }) <= max,
    ensures
        offer_files(m, files, max) == (ContextMapView {
            root: m.root,
            files: place_files(m.files, files),
        }),
    decreases files.len(),
{
    if files.len() > 0 {
        let d = files.drop_last();
        let f = files.last();
        lemma_place_all_grows(m.root, place_files(m.files, d), f.path, ranked_symbols(f.symbols));
        lemma_offer_all_files(m, d, max);
        lemma_offer_all_symbols(
            ContextMapView { root: m.root, files: place_files(m.files, d) },
            f.path,
            ranked_symbols(f.symbols),
            max,
        );
    }
}

proof fn lemma_push_all_new_first(cands: Seq<Seq<char>>, ts: Seq<Seq<char>>)
    requires
        cands.len() > 0,
    ensures
        push_all_new(cands, ts).len() > 0,
        push_all_new(cands, ts)[0] == cands[0],
    decreases ts.len(),
{
    if ts.len() > 0 {
        lemma_push_all_new_first(cands, ts.drop_last());
    }
}

/// A file with its symbols in the order in which they are offered.
pub open spec fn with_ranked_symbols(f: FileMapView) -> FileMapView {
    FileMapView { path: f.path, symbols: ranked_symbols(f.symbols) }
}

/// The files in the order in which they are offered, each with its symbols
/// in that order.
pub open spec fn ranked_map_files(files: Seq<FileMapView>) -> Seq<FileMapView> {
    ranked_files(files).map_values(|f: FileMapView| with_ranked_symbols(f))
}

proof fn lemma_place_all_fresh(acc: Seq<FileMapView>, path: Seq<char>, syms: Seq<SymbolView>)
    requires
        forall|j: int| 0 <= j < acc.len() ==> (#[trigger] acc[j]).path != path,
        syms.len() > 0,
    ensures
        place_all(acc, path, syms) == acc.push(FileMapView { path, symbols: syms }),
    decreases syms.len(),
{
    let d = syms.drop_last();
    if d.len() == 0 {
        lemma_path_index_from(acc, path, 0);
        assert(place_all(acc, path, d) == acc);
        assert(seq![syms.last()] =~= syms);
    } else {
        lemma_place_all_fresh(acc, path, d);
        let acc2 = acc.push(FileMapView { path, symbols: d });
        lemma_path_index_from(acc2, path, 0);
        assert(acc2[acc.len() as int].path == path);
        assert(path_index(acc2, path) == acc.len());
        assert(d.push(syms.last()) =~= syms);
        assert(acc2.update(acc.len() as int, FileMapView { path, symbols: syms }) =~= acc.push(
            FileMapView { path, symbols: syms },
        ));
    }
}

proof fn lemma_place_files_fresh(files: Seq<FileMapView>)
    requires
        distinct_paths(files),
        forall|i: int| 0 <= i < files.len() ==> 0 < (#[trigger] files[i]).symbols.len() <= usize::MAX,
    ensures
        place_files(Seq::empty(), files) == files.map_values(|f: FileMapView| with_ranked_symbols(f)),
    decreases files.len(),
{
    if files.len() > 0 {
        let d = files.drop_last();
        let f = files.last();
        assert forall|i: int, j: int| 0 <= i < j < d.len() implies (#[trigger] d[i]).path != (
        #[trigger] d[j]).path by {
            assert(d[i] == files[i] && d[j] == files[j]);
        }
        assert forall|i: int| 0 <= i < d.len() implies 0 < (#[trigger] d[i]).symbols.len() <= usize::MAX by {
            assert(d[i] == files[i]);
        }
        lemma_place_files_fresh(d);
        let acc = d.map_values(|g: FileMapView| with_ranked_symbols(g));
        assert forall|j: int| 0 <= j < acc.len() implies (#[trigger] acc[j]).path != f.path by {
            assert(acc[j].path == files[j].path);
            assert(files[j].path != files[files.len() - 1].path);
        }
        assert(f == files[files.len() - 1]);
        law_ranked_symbols(f.symbols);
        lemma_place_all_fresh(acc, f.path, ranked_symbols(f.symbols));
        assert(acc.push(with_ranked_symbols(f)) =~= files.map_values(
            |g: FileMapView| with_ranked_symbols(g),
        ));
    }
}

proof fn lemma_ranked_symbols_json_len(syms: Seq<SymbolView>)
    requires
        syms.len() <= usize::MAX,
    ensures
        encode_utf8(join(symbols_json(ranked_symbols(syms)))).len() == encode_utf8(
            join(symbols_json(syms)),
        ).len(),
{
    let keys = syms.map_values(|s: SymbolView| symbol_key(s));
    let n = syms.len();
    let r = ranked(keys, n);
    lemma_ranked_len(keys, n);
    lemma_ranked_bounds(keys, n);
    lemma_ranked_sorted(keys, n);
    lemma_ranked_covers(keys, n);
    let (x, y) = (symbols_json(syms), symbols_json(ranked_symbols(syms)));
    assert forall|k: int| 0 <= k < y.len() implies encode_utf8(#[trigger] y[k]).len() == encode_utf8(
        x[r[k] as int],
    ).len() by {
        assert(y[k] == symbol_json(syms[r[k] as int]));
    }
    lemma_bytes_total_permuted(x, y, r);
    lemma_join_len(x);
    lemma_join_len(y);
}

proof fn lemma_ranked_map_json_len(root: Seq<char>, files: Seq<FileMapView>)
    requires
        files.len() <= usize::MAX,
        forall|i: int| 0 <= i < files.len() ==> (#[trigger] files[i]).symbols.len() <= usize::MAX,
    ensures
        json_len(ContextMapView { root, files: ranked_map_files(files) }) == json_len(
            ContextMapView { root, files },
        ),
{
    let keys = files.map_values(|f: FileMapView| file_key(f));
    let n = files.len();
    let r = ranked(keys, n);
    lemma_ranked_len(keys, n);
    lemma_ranked_bounds(keys, n);
    lemma_ranked_sorted(keys, n);
    lemma_ranked_covers(keys, n);
    let rm = ranked_map_files(files);
    let (x, y) = (files_json(files), files_json(rm));
    assert forall|k: int| 0 <= k < y.len() implies encode_utf8(#[trigger] y[k]).len() == encode_utf8(
        x[r[k] as int],
    ).len() by {
        let f = files[r[k] as int];
        assert(rm[k] == with_ranked_symbols(f));
        lemma_file_json_len(f);
        lemma_file_json_len(with_ranked_symbols(f));
        lemma_ranked_symbols_json_len(f.symbols);
    }
    lemma_bytes_total_permuted(x, y, r);
    lemma_join_len(x);
    lemma_join_len(y);
    lemma_map_json_len(ContextMapView { root, files });
    lemma_map_json_len(ContextMapView { root, files: rm });
}

proof fn lemma_ranked_files_fresh(files: Seq<FileMapView>)
    requires
        files.len() <= usize::MAX,
        distinct_paths(files),
        forall|i: int| 0 <= i < files.len() ==> 0 < (#[trigger] files[i]).symbols.len() <= usize::MAX,
    ensures
        distinct_paths(ranked_files(files)),
        forall|i: int| 0 <= i < ranked_files(files).len() ==> 0 < (#[trigger] ranked_files(
            files,
        )[i]).symbols.len() <= usize::MAX,
{
    let keys = files.map_values(|f: FileMapView| file_key(f));
    let n = files.len();
    let r = ranked(keys, n);
    let rf = ranked_files(files);
    lemma_ranked_len(keys, n);
    lemma_ranked_bounds(keys, n);
    lemma_ranked_sorted(keys, n);
    assert forall|a: int, b: int| 0 <= a < b < rf.len() implies (#[trigger] rf[a]).path != (
    #[trigger] rf[b]).path by {
        assert(r[a] != r[b]);
        let (i, j) = (r[a] as int, r[b] as int);
        assert(rf[a] == files[i] && rf[b] == files[j]);
        if i < j {
            assert(files[i].path != files[j].path);
        } else {
            assert(files[j].path != files[i].path);
        }
    }
    assert forall|i: int| 0 <= i < rf.len() implies 0 < (#[trigger] rf[i]).symbols.len() <= usize::MAX by {
        assert(rf[i] == files[r[i] as int]);
    }
}

proof fn lemma_generous_budget(full: ContextMapView, tokens: usize)
    requires
        json_len(ContextMapView { root: full.root, files: kept_files(full) }) <= requested_bytes(tokens),
    ensures
        pruned_map(full, tokens) == (ContextMapView { root: full.root, files: kept_files(full) }),
{
    let req = requested_bytes(tokens);
    let cands = spec_candidate_roots(full.root);
    lemma_place_files_grows(full.root, Seq::empty(), ranked_files(full.files));
    assert(empty_map(full.root) == (ContextMapView { root: full.root, files: Seq::empty() }));
    if full.root.len() > 0 {
        lemma_push_all_new_first(seq![full.root], spec_truncated_roots(full.root));
    }
    assert(cands[0] == full.root);
    assert(first_fit(cands, req) == full.root);
    assert(effective_max_bytes(full.root, tokens) == req);
    lemma_offer_all_files(empty_map(full.root), ranked_files(full.files), req);
}

/// When a whole map fits in the bytes that a budget requests, pruning drops
/// nothing: the result holds every file and symbol of the map, files in
/// the order in which they are offered and each file's symbols in theirs,
/// and its JSON is exactly as long. This is for maps as they are built:
/// each file has symbols, and no path occurs twice.
pub proof fn law_generous_budget_keeps_everything(full: ContextMapView, tokens: usize)
    requires
        full.files.len() <= usize::MAX,
        distinct_paths(full.files),
        forall|i: int| 0 <= i < full.files.len() ==> 0 < (#[trigger] full.files[i]).symbols.len() <= usize::MAX,
        json_len(full) <= requested_bytes(tokens),
    ensures
        pruned_map(full, tokens) == (ContextMapView { root: full.root, files: ranked_map_files(full.files) }),
        json_len(pruned_map(full, tokens)) == json_len(full),
{
    lemma_ranked_files_fresh(full.files);
    lemma_place_files_fresh(ranked_files(full.files));
    assert(kept_files(full) == ranked_map_files(full.files));
    lemma_ranked_map_json_len(full.root, full.files);
    assert(full == (ContextMapView { root: full.root, files: full.files }));
    lemma_generous_budget(full, tokens);
}


/// A budget that parses is never zero.
pub proof fn law_budget_is_positive(input: Seq<char>)
    ensures
        parse_budget(input) matches Ok(n) ==> n > 0,
{
}


/// The number of tokens that a budget text is read as, or none where it is
/// refused.
pub open spec fn accepted_budget(input: Seq<char>) -> Option<usize> {
    match parse_budget(input) {
        Ok(n) => Some(n),
        Err(_) => None,
    }
}

proof fn lemma_accepted_by_trim(x: Seq<char>, y: Seq<char>)
    requires
        ascii_lower(trim(x)) == ascii_lower(trim(y)),
    ensures
        accepted_budget(x) == accepted_budget(y),
{
    assert(trim(x).len() == ascii_lower(trim(x)).len());
    assert(trim(y).len() == ascii_lower(trim(y)).len());
}

/// White space around a budget text never changes whether it is accepted
/// or the number of tokens it is read as.
pub proof fn law_budget_ignores_surrounding_space(w1: Seq<char>, input: Seq<char>, w2: Seq<char>)
    requires
        forall|k: int| 0 <= k < w1.len() ==> is_white_space(#[trigger] w1[k]),
        forall|k: int| 0 <= k < w2.len() ==> is_white_space(#[trigger] w2[k]),
    ensures
        accepted_budget(w1 + input + w2) == accepted_budget(input),
{
    lemma_trim_padded(w1, input, w2);
    lemma_accepted_by_trim(w1 + input + w2, input);
}

/// Budget texts that differ only in the case of ASCII letters are accepted
/// alike and read as the same number of tokens.
pub proof fn law_budget_ignores_ascii_case(a: Seq<char>, b: Seq<char>)
    requires
        ascii_lower(a) == ascii_lower(b),
    ensures
        accepted_budget(a) == accepted_budget(b),
{
    lemma_lower_trim(a);
    lemma_lower_trim(b);
    lemma_accepted_by_trim(a, b);
}


/// No path occurs twice among the files.
pub open spec fn distinct_paths(files: Seq<FileMapView>) -> bool {
    forall|i: int, j: int| 0 <= i < j < files.len() ==> (#[trigger] files[i]).path != (#[trigger] files[j]).path
}

/// Each file's key comes strictly before the next one's.
pub open spec fn strictly_ranked(files: Seq<FileMapView>) -> bool {
    forall|a: int, b: int|
        0 <= a < b < files.len() ==> key_lt(file_key(#[trigger] files[a]), file_key(#[trigger] files[b]))
}

proof fn lemma_ranked_files_strict(files: Seq<FileMapView>)
    requires
        files.len() <= usize::MAX,
        distinct_paths(files),
    ensures
        strictly_ranked(ranked_files(files)),
        forall|x: FileMapView| ranked_files(files).contains(x) <==> files.contains(x),
{
    let keys = files.map_values(|f: FileMapView| file_key(f));
    let n = files.len();
    let r = ranked(keys, n);
    let rf = ranked_files(files);
    lemma_ranked_len(keys, n);
    lemma_ranked_bounds(keys, n);
    lemma_ranked_sorted(keys, n);
    law_ranked_files(files);
    assert forall|x: FileMapView| rf.contains(x) <==> files.contains(x) by {
        if rf.contains(x) {
            let m = choose|m: int| 0 <= m < rf.len() && rf[m] == x;
            assert(files[r[m] as int] == x);
        }
        if files.contains(x) {
            let i = choose|i: int| 0 <= i < files.len() && files[i] == x;
            assert(rf.contains(files[i]));
        }
    }
    assert forall|a: int, b: int| 0 <= a < b < rf.len() implies key_lt(
        file_key(#[trigger] rf[a]),
        file_key(#[trigger] rf[b]),
    ) by {
        let (i, j) = (r[a] as int, r[b] as int);
        assert(precedes(keys, r[a], r[b]));
        assert(r[a] != r[b]);
        assert(rf[a] == files[i]);
        assert(rf[b] == files[j]);
        assert(keys[i] == file_key(files[i]));
        assert(keys[j] == file_key(files[j]));
        if !key_lt(keys[i], keys[j]) {
            assert(keys[i] == keys[j]);
            assert(encode_utf8(files[i].path) == encode_utf8(files[j].path));
            vstd::utf8::encode_utf8_decode_utf8(files[i].path);
            vstd::utf8::encode_utf8_decode_utf8(files[j].path);
            assert(i < j);
            assert(files[i].path != files[j].path);
        }
    }
}

proof fn lemma_strictly_ranked_unique(p: Seq<FileMapView>, q: Seq<FileMapView>)
    requires
        strictly_ranked(p),
        strictly_ranked(q),
        forall|x: FileMapView| p.contains(x) <==> q.contains(x),
    ensures
        p == q,
    decreases p.len() + q.len(),
{
    if p.len() == 0 && q.len() == 0 {
        assert(p =~= q);
    } else if p.len() == 0 {
        assert(q.contains(q[0]));
    } else if q.len() == 0 {
        assert(p.contains(p[0]));
    } else {
        let (x, y) = (p.last(), q.last());
        assert(p.contains(x));
        assert(q.contains(y));
        if x != y {
            let i = choose|i: int| 0 <= i < p.len() && p[i] == y;
            let j = choose|j: int| 0 <= j < q.len() && q[j] == x;
            assert(i < p.len() - 1);
            assert(j < q.len() - 1);
            assert(key_lt(file_key(p[i]), file_key(p[p.len() - 1])));
            assert(key_lt(file_key(q[j]), file_key(q[q.len() - 1])));
            lemma_key_lt_transitive(file_key(x), file_key(y), file_key(x));
            lemma_key_lt_irreflexive(file_key(x));
        }
        let (dp, dq) = (p.drop_last(), q.drop_last());
        assert forall|z: FileMapView| dp.contains(z) <==> dq.contains(z) by {
            if dp.contains(z) {
                let i = choose|i: int| 0 <= i < dp.len() && dp[i] == z;
                assert(p[i] == z);
                assert(key_lt(file_key(p[i]), file_key(p[p.len() - 1])));
                lemma_key_lt_irreflexive(file_key(z));
                assert(q.contains(z));
                let j = choose|j: int| 0 <= j < q.len() && q[j] == z;
                assert(j != q.len() - 1);
                assert(dq[j] == z);
            }
            if dq.contains(z) {
                let j = choose|j: int| 0 <= j < dq.len() && dq[j] == z;
                assert(q[j] == z);
                assert(key_lt(file_key(q[j]), file_key(q[q.len() - 1])));
                lemma_key_lt_irreflexive(file_key(z));
                assert(p.contains(z));
                let i = choose|i: int| 0 <= i < p.len() && p[i] == z;
                assert(i != p.len() - 1);
                assert(dp[i] == z);
            }
        }
        assert(strictly_ranked(dp)) by {
            assert forall|a: int, b: int| 0 <= a < b < dp.len() implies key_lt(
                file_key(#[trigger] dp[a]),
                file_key(#[trigger] dp[b]),
            ) by {
                assert(dp[a] == p[a] && dp[b] == p[b]);
            }
        }
        assert(strictly_ranked(dq)) by {
            assert forall|a: int, b: int| 0 <= a < b < dq.len() implies key_lt(
                file_key(#[trigger] dq[a]),
                file_key(#[trigger] dq[b]),
            ) by {
                assert(dq[a] == q[a] && dq[b] == q[b]);
            }
        }
        lemma_strictly_ranked_unique(dp, dq);
        assert(p =~= dp.push(x));
        assert(q =~= dq.push(y));
    }
}

/// The order in which files with distinct paths come in a map never
/// changes what a budget leaves of it: two lists of the same files give the
/// same pruned map.
pub proof fn law_file_order_does_not_matter(
    root: Seq<char>,
    files: Seq<FileMapView>,
    reordered: Seq<FileMapView>,
    tokens: usize,
)
    requires
        files.len() <= usize::MAX,
        reordered.len() <= usize::MAX,
        distinct_paths(files),
        distinct_paths(reordered),
        forall|x: FileMapView| files.contains(x) <==> reordered.contains(x),
    ensures
        pruned_map(ContextMapView { root, files }, tokens) == pruned_map(
            ContextMapView { root, files: reordered },
            tokens,
        ),
{
    lemma_ranked_files_strict(files);
    lemma_ranked_files_strict(reordered);
    let (p, q) = (ranked_files(files), ranked_files(reordered));
    assert forall|x: FileMapView| p.contains(x) <==> q.contains(x) by {
        assert(p.contains(x) <==> files.contains(x));
        assert(q.contains(x) <==> reordered.contains(x));
    }
    lemma_strictly_ranked_unique(ranked_files(files), ranked_files(reordered));
}


/// A file without symbols scores the bytes of its path; one more symbol
/// adds a hundred and that symbol's score, as long as nothing saturates.
pub proof fn law_file_score_per_symbol(path: Seq<char>, syms: Seq<SymbolView>, s: SymbolView)
    ensures
        byte_len(path) <= usize::MAX ==> spec_file_score(FileMapView { path, symbols: Seq::empty() })
            == byte_len(path),
        (syms.len() + 1) * 100 <= usize::MAX && spec_file_score(FileMapView { path, symbols: syms }) + 100
            + spec_symbol_score(s) <= usize::MAX ==> spec_file_score(FileMapView { path, symbols: syms.push(s) }) == spec_file_score(
            FileMapView { path, symbols: syms },
        ) + 100 + spec_symbol_score(s),
{
    let t = syms.push(s);
    assert(t.drop_last() =~= syms);
    assert(t.last() == s);
    assert(richness(Seq::<SymbolView>::empty()) == 0);
}

} // verus!
