//! Assembling the map of a scanned project and pruning it to a budget.
use vstd::prelude::*;
pub use crate::json::serialize_map;
use vstd::utf8::encode_utf8;
use crate::budgeter::{
    apply_budget, effective_max_bytes, file_scorable, pruned_map, requested_bytes, scorable,
    Budget, BudgetSummary,
};
use crate::json::json_len;
use crate::models::{ContextMap, ContextMapView, FileMap, FileMapView, Symbol, SymbolView};
use crate::ranking::{
    lemma_map_push_step, lemma_ranked_bounds, lemma_ranked_covers, lemma_ranked_len, lemma_ranked_sorted, precedes, rank,
    ranked, KeyView, SortKey,
};
use crate::text::{bytes_lt, lemma_bytes_lt_irreflexive, lemma_bytes_lt_transitive};

verus! {

/// A scanned project: its whole map, the map pruned to the budget, what the
/// pruning kept, and how many files were scanned.
pub struct MapOutput {
    pub full_map: ContextMap,
    pub pruned_map: ContextMap,
    pub summary: BudgetSummary,
    pub scanned_files: usize,
}

/// A path with each backslash turned into a slash.
pub open spec fn normalize_path(p: Seq<char>) -> Seq<char> {
    p.map_values(|c: char| if c == '\\' { '/' } else { c })
}

/// The scanned files that have symbols, in order, with normalized paths.
pub open spec fn indexed_files(scanned: Seq<FileMapView>) -> Seq<FileMapView>
    decreases scanned.len(),
{
    if scanned.len() == 0 {
        Seq::empty()
    } else {
        let rest = indexed_files(scanned.drop_last());
        let f = scanned.last();
        if f.symbols.len() == 0 {
            rest
        } else {
            rest.push(FileMapView { path: normalize_path(f.path), symbols: f.symbols })
        }
    }
}

/// Files are ordered by path.
pub open spec fn path_key(f: FileMapView) -> KeyView {
    KeyView { primary: 0, text: encode_utf8(f.path), secondary: 0 }
}

/// The files in the stable order of their paths.
pub open spec fn sorted_by_path(files: Seq<FileMapView>) -> Seq<FileMapView> {
    ranked(files.map_values(|f: FileMapView| path_key(f)), files.len()).map_values(
        |i: usize| files[i as int],
    )
}

/// The whole map of a project rooted at `root`.
pub open spec fn full_context_map(root: Seq<char>, scanned: Seq<FileMapView>) -> ContextMapView {
    ContextMapView { root, files: sorted_by_path(indexed_files(scanned)) }
}

pub open spec fn files_view(files: Seq<FileMap>) -> Seq<FileMapView> {
    files.map_values(|f: FileMap| f@)
}

/// Every file can be scored without overflow.
pub open spec fn files_scorable(files: Seq<FileMapView>) -> bool {
    forall|i: int| 0 <= i < files.len() ==> file_scorable(#[trigger] files[i])
}

/// Whether every file of `files` can be scored without overflow.
pub fn scores_fit(files: &Vec<FileMap>) -> (b: bool)
    ensures
        b == files_scorable(files_view(files@)),
{
    let ghost fv = files_view(files@);
    for i in 0..files.len()
        invariant
            fv == files_view(files@),
            forall|k: int| 0 <= k < i ==> file_scorable(#[trigger] fv[k]),
    {
        let f = &files[i];
        proof {
            assert(fv[i as int] == f@);
        }
        let count = f.symbols.len();
        if count > usize::MAX / 100 {
            assert(count * 100 > usize::MAX) by (nonlinear_arith)
                requires
                    count > usize::MAX / 100,
            ;
            return false;
        }
        for k in 0..f.symbols.len()
            invariant
                i < files@.len(),
                fv == files_view(files@),
                fv[i as int] == f@,
                forall|k: int| 0 <= k < i ==> file_scorable(#[trigger] fv[k]),
                forall|j: int| 0 <= j < k ==> crate::budgeter::symbol_scorable(#[trigger] f@.symbols[j]),
        {
            let n = crate::budgeter::str_byte_len(f.symbols[k].name.as_str());
            proof {
                assert(f@.symbols[k as int] == f.symbols@[k as int]@);
            }
            if n > usize::MAX / 8 {
                assert(n * 8 > usize::MAX) by (nonlinear_arith)
                    requires
                        n > usize::MAX / 8,
                ;
                assert(!crate::budgeter::symbol_scorable(f@.symbols[k as int]));
                assert(!file_scorable(fv[i as int]));
                return false;
            }
        }
    }
    true
}

/// A copy of a file.
pub fn clone_file(f: &FileMap) -> (r: FileMap)
    ensures
        r@ == f@,
{
    let mut symbols: Vec<Symbol> = Vec::new();
    for k in 0..f.symbols.len()
        invariant
            symbols@.map_values(|s: Symbol| s@) == f.symbols@.take(k as int).map_values(
                |s: Symbol| s@,
            ),
    {
        let copy = f.symbols[k].clone();
        proof {
            lemma_map_push_step(symbols@, copy, |s: Symbol| s@, f.symbols@, |s: Symbol| s@, k as int);
        }
        symbols.push(copy);
    }
    assert(f.symbols@.take(f.symbols@.len() as int) =~= f.symbols@);
    FileMap { path: f.path.clone(), symbols }
}

/// A path with each backslash turned into a slash.
pub fn replace_backslashes(s: &str) -> (r: String)
    ensures
        r@ == normalize_path(s@),
{
    let n = s.unicode_len();
    let mut out = String::new();
    let mut start: usize = 0;
    let mut i: usize = 0;
    while i < n
        invariant
            n == s@.len(),
            start <= i <= n,
            out@ == normalize_path(s@.take(start as int)),
            forall|k: int| start <= k < i ==> s@[k] != '\\',
        decreases n - i,
    {
        if s.get_char(i) == '\\' {
            out.append(s.substring_char(start, i));
            out.append("/");
            proof {
                reveal_strlit("/");
                assert(normalize_path(s@.take(i + 1)) =~= normalize_path(s@.take(start as int))
                    + s@.subrange(start as int, i as int) + "/"@);
            }
            start = i + 1;
        }
        i = i + 1;
    }
    out.append(s.substring_char(start, n));
    proof {
        assert(normalize_path(s@) =~= normalize_path(s@.take(start as int)) + s@.subrange(
            start as int,
            n as int,
        ));
    }
    out
}

/// Assembles the map of a project and prunes it to `budget`.
///
/// `root` is the project's root; `scanned` holds each file that was walked,
/// under its path relative to the root, with the symbols found in it. Files
/// without symbols are left out, backslashes in paths become slashes, and
/// the files are ordered by path.
pub fn build_context_map(root: String, scanned: Vec<FileMap>, budget: Budget) -> (out: MapOutput)
    requires
        files_scorable(files_view(scanned@)),
    ensures
        out.full_map@ == full_context_map(root@, files_view(scanned@)),
        out.pruned_map@ == pruned_map(out.full_map@, budget.tokens()),
        out.summary == (BudgetSummary {
            max_tokens: budget.tokens(),
            max_bytes: effective_max_bytes(root@, budget.tokens()),
            requested_max_bytes: requested_bytes(budget.tokens()),
            output_bytes: json_len(out.pruned_map@) as usize,
            indexed_files: out.full_map@.files.len() as usize,
            retained_files: out.pruned_map@.files.len() as usize,
        }),
        out.scanned_files == scanned@.len(),
        out.full_map@.files.len() <= out.scanned_files,
{
    let ghost sv = files_view(scanned@);
    let mut indexed: Vec<FileMap> = Vec::new();
    for i in 0..scanned.len()
        invariant
            sv == files_view(scanned@),
            files_scorable(sv),
            files_view(indexed@) == indexed_files(sv.take(i as int)),
            files_scorable(files_view(indexed@)),
    {
        let f = &scanned[i];
        proof {
            assert(sv[i as int] == f@);
            assert(sv.take(i + 1).drop_last() =~= sv.take(i as int));
            assert(sv.take(i + 1).last() == f@);
        }
        if !f.symbols.is_empty() {
            let copy = clone_file(f);
            let entry = FileMap { path: replace_backslashes(f.path.as_str()), symbols: copy.symbols };
            let ghost prev = indexed@;
            indexed.push(entry);
            proof {
                assert(files_view(prev).len() == prev.len());
                assert(files_view(indexed@) =~= files_view(prev).push(entry@));
                assert forall|k: int| 0 <= k < files_view(indexed@).len() implies file_scorable(
                    #[trigger] files_view(indexed@)[k],
                ) by {
                    if k < prev.len() {
                        assert(files_view(indexed@)[k] == files_view(prev)[k]);
                    } else {
                        assert(file_scorable(sv[i as int]));
                    }
                }
            }
        }
    }
    proof {
        assert(sv.take(scanned@.len() as int) =~= sv);
    }
    let ghost iv = files_view(indexed@);
    let mut keys: Vec<SortKey> = Vec::new();
    for i in 0..indexed.len()
        invariant
            iv == files_view(indexed@),
            keys@.map_values(|k: SortKey| k@) == iv.take(i as int).map_values(
                |f: FileMapView| path_key(f),
            ),
    {
        let key = SortKey { primary: 0, text: crate::budgeter::bytes_of(indexed[i].path.as_str()), secondary: 0 };
        proof {
            assert(iv[i as int] == indexed@[i as int]@);
            lemma_map_push_step(keys@, key, |k: SortKey| k@, iv, |f: FileMapView| path_key(f), i as int);
        }
        keys.push(key);
    }
    proof {
        assert(iv.take(indexed@.len() as int) =~= iv);
    }
    let order = rank(&keys);
    let ghost sorted_spec = sorted_by_path(iv);
    let mut sorted: Vec<FileMap> = Vec::new();
    for k in 0..order.len()
        invariant
            iv == files_view(indexed@),
            files_scorable(iv),
            order@ == ranked(iv.map_values(|f: FileMapView| path_key(f)), iv.len()),
            order@.len() == iv.len(),
            forall|m: int| 0 <= m < order@.len() ==> #[trigger] order@[m] < iv.len(),
            sorted_spec == sorted_by_path(iv),
            files_view(sorted@) == sorted_spec.take(k as int),
            files_scorable(files_view(sorted@)),
    {
        let ghost prev = sorted@;
        let idx = order[k];
        let copy = clone_file(&indexed[idx]);
        sorted.push(copy);
        proof {
            assert(files_view(prev).len() == prev.len());
            assert(sorted_spec[k as int] == iv[idx as int]);
            assert(iv[idx as int] == indexed@[idx as int]@);
            assert(files_view(sorted@) =~= sorted_spec.take(k + 1));
            assert forall|m: int| 0 <= m < files_view(sorted@).len() implies file_scorable(
                #[trigger] files_view(sorted@)[m],
            ) by {
                if m < prev.len() {
                    assert(files_view(sorted@)[m] == files_view(prev)[m]);
                } else {
                    assert(file_scorable(iv[idx as int]));
                }
            }
        }
    }
    proof {
        assert(sorted_spec.take(order@.len() as int) =~= sorted_spec);
    }
    let full_map = ContextMap { root, files: sorted };
    proof {
        assert(full_map@.files == files_view(full_map.files@));
        law_full_map_files(root@, sv);
    }
    let (pruned, summary) = apply_budget(&full_map, budget);
    let scanned_files = scanned.len();
    MapOutput { full_map, pruned_map: pruned, summary, scanned_files }
}


/// The files of a map come in the order of their paths, and every file is
/// there.
pub proof fn law_sorted_by_path(files: Seq<FileMapView>)
    requires
        files.len() <= usize::MAX,
    ensures
        sorted_by_path(files).len() == files.len(),
        forall|i: int| 0 <= i < files.len() ==> sorted_by_path(files).contains(#[trigger] files[i]),
        forall|a: int, b: int|
            0 <= a < b < sorted_by_path(files).len() ==> !bytes_lt(
                encode_utf8(#[trigger] sorted_by_path(files)[b].path),
                encode_utf8(#[trigger] sorted_by_path(files)[a].path),
            ),
{
    let keys = files.map_values(|f: FileMapView| path_key(f));
    let n = files.len();
    let r = ranked(keys, n);
    let sf = sorted_by_path(files);
    lemma_ranked_len(keys, n);
    lemma_ranked_bounds(keys, n);
    lemma_ranked_sorted(keys, n);
    lemma_ranked_covers(keys, n);
    assert forall|i: int| 0 <= i < n implies sf.contains(#[trigger] files[i]) by {
        assert(r.contains(i as usize));
        let m = choose|m: int| 0 <= m < r.len() && r[m] == i as usize;
        assert(sf[m] == files[i]);
    }
    assert forall|a: int, b: int| 0 <= a < b < sf.len() implies !bytes_lt(
        encode_utf8(#[trigger] sf[b].path),
        encode_utf8(#[trigger] sf[a].path),
    ) by {
        assert(precedes(keys, r[a], r[b]));
        assert(sf[a] == files[r[a] as int]);
        assert(sf[b] == files[r[b] as int]);
        assert(keys[r[a] as int] == path_key(sf[a]));
        assert(keys[r[b] as int] == path_key(sf[b]));
        let (x, y) = (encode_utf8(sf[a].path), encode_utf8(sf[b].path));
        if bytes_lt(y, x) {
            lemma_bytes_lt_irreflexive(x);
            if bytes_lt(x, y) {
                lemma_bytes_lt_transitive(x, y, x);
            }
        }
    }
}


proof fn lemma_indexed_files(scanned: Seq<FileMapView>)
    ensures
        indexed_files(scanned).len() <= scanned.len(),
        forall|i: int| 0 <= i < indexed_files(scanned).len() ==> (#[trigger] indexed_files(scanned)[i]).symbols.len() > 0,
    decreases scanned.len(),
{
    if scanned.len() > 0 {
        let d = scanned.drop_last();
        lemma_indexed_files(d);
        let rest = indexed_files(d);
        assert forall|i: int| 0 <= i < indexed_files(scanned).len() implies (#[trigger] indexed_files(
            scanned,
        )[i]).symbols.len() > 0 by {
            if i < rest.len() {
                assert(indexed_files(scanned)[i] == rest[i]);
            }
        }
    }
}

/// The whole map holds a file for each scanned file with symbols, so never
/// more files than were scanned, and every file in it has symbols.
pub proof fn law_full_map_files(root: Seq<char>, scanned: Seq<FileMapView>)
    requires
        scanned.len() <= usize::MAX,
    ensures
        full_context_map(root, scanned).files.len() <= scanned.len(),
        forall|i: int| 0 <= i < full_context_map(root, scanned).files.len() ==> (#[trigger] full_context_map(
            root,
            scanned,
        ).files[i]).symbols.len() > 0,
{
    let files = indexed_files(scanned);
    lemma_indexed_files(scanned);
    let keys = files.map_values(|f: FileMapView| path_key(f));
    let n = files.len();
    lemma_ranked_len(keys, n);
    lemma_ranked_bounds(keys, n);
    let sf = full_context_map(root, scanned).files;
    assert forall|i: int| 0 <= i < sf.len() implies (#[trigger] sf[i]).symbols.len() > 0 by {
        assert(sf[i] == files[ranked(keys, n)[i] as int]);
    }
}


/// `q` is the path `p` with each backslash turned into a slash.
pub open spec fn slashed(p: Seq<char>, q: Seq<char>) -> bool {
    &&& q.len() == p.len()
    &&& forall|c: int| 0 <= c < p.len() ==> #[trigger] q[c] == (if p[c] == '\\' { '/' } else { p[c] })
}

/// `g` is the scanned file `f` as the map holds it: the same symbols in
/// the same order, under the path with slashes for backslashes.
#[verifier::opaque]
pub open spec fn holds_file(g: FileMapView, f: FileMapView) -> bool {
    g.symbols == f.symbols && slashed(f.path, g.path)
}

proof fn lemma_indexed_has(scanned: Seq<FileMapView>)
    ensures
        forall|i: int| 0 <= i < scanned.len() && (#[trigger] scanned[i]).symbols.len() > 0 ==> exists|j: int|
            0 <= j < indexed_files(scanned).len() && holds_file(#[trigger] indexed_files(scanned)[j], scanned[i]),
    decreases scanned.len(),
{
    if scanned.len() > 0 {
        let d = scanned.drop_last();
        let n = scanned.len() - 1;
        lemma_indexed_has(d);
        let rest = indexed_files(d);
        let cur = indexed_files(scanned);
        let f = scanned.last();
        assert(scanned[n] == f);
        let g = FileMapView { path: normalize_path(f.path), symbols: f.symbols };
        assert(holds_file(g, f)) by {
            reveal(holds_file);
        }
        assert forall|i: int| 0 <= i < scanned.len() && (#[trigger] scanned[i]).symbols.len() > 0 implies exists|j: int|
            0 <= j < cur.len() && holds_file(#[trigger] cur[j], scanned[i]) by {
            if i < n {
                assert(scanned[i] == d[i]);
                let j = choose|j: int| 0 <= j < rest.len() && holds_file(#[trigger] rest[j], d[i]);
                assert(cur[j] == rest[j]);
            } else {
                assert(cur[rest.len() as int] == g);
            }
        }
    }
}


/// The whole map holds every scanned file that has symbols, with all of
/// its symbols in their order and its path with slashes for backslashes,
/// and as many files as there are such scanned files.
pub proof fn law_full_map_holds_scanned_files(root: Seq<char>, scanned: Seq<FileMapView>)
    requires
        scanned.len() <= usize::MAX,
    ensures
        forall|i: int| 0 <= i < scanned.len() && (#[trigger] scanned[i]).symbols.len() > 0 ==> exists|j: int|
            0 <= j < full_context_map(root, scanned).files.len() && holds_file(
                #[trigger] full_context_map(root, scanned).files[j],
                scanned[i],
            ),
        full_context_map(root, scanned).files.len() == scanned.filter(
            |f: FileMapView| f.symbols.len() > 0,
        ).len(),
{
    let files = indexed_files(scanned);
    let sf = sorted_by_path(files);
    lemma_indexed_files(scanned);
    lemma_indexed_count(scanned);
    assert(full_context_map(root, scanned).files == sf);
    let keys = files.map_values(|f: FileMapView| path_key(f));
    lemma_ranked_len(keys, files.len());
    lemma_indexed_has(scanned);
    lemma_sorted_has(files);
    lemma_carry_has(scanned, files, sf);
}

proof fn lemma_indexed_count(scanned: Seq<FileMapView>)
    ensures
        indexed_files(scanned).len() == scanned.filter(|f: FileMapView| f.symbols.len() > 0).len(),
    decreases scanned.len(),
{
    reveal(Seq::filter);
    if scanned.len() > 0 {
        lemma_indexed_count(scanned.drop_last());
    }
}


proof fn lemma_sorted_has(files: Seq<FileMapView>)
    requires
        files.len() <= usize::MAX,
    ensures
        forall|k: int| 0 <= k < files.len() ==> exists|j: int|
            0 <= j < sorted_by_path(files).len() && sorted_by_path(files)[j] == #[trigger] files[k],
{
    let keys = files.map_values(|f: FileMapView| path_key(f));
    let n = files.len();
    let r = ranked(keys, n);
    let sf = sorted_by_path(files);
    lemma_ranked_len(keys, n);
    lemma_ranked_bounds(keys, n);
    lemma_ranked_covers(keys, n);
    assert forall|k: int| 0 <= k < files.len() implies exists|j: int|
        0 <= j < sf.len() && sf[j] == #[trigger] files[k] by {
        assert(r.contains(k as usize));
        let j = choose|j: int| 0 <= j < r.len() && r[j] == k as usize;
        assert(sf[j] == files[k]);
    }
}



proof fn lemma_carry_has(scanned: Seq<FileMapView>, files: Seq<FileMapView>, sf: Seq<FileMapView>)
    requires
        forall|i: int| 0 <= i < scanned.len() && (#[trigger] scanned[i]).symbols.len() > 0 ==> exists|j: int|
            0 <= j < files.len() && holds_file(#[trigger] files[j], scanned[i]),
        forall|k: int| 0 <= k < files.len() ==> exists|j: int| 0 <= j < sf.len() && sf[j] == #[trigger] files[k],
    ensures
        forall|i: int| 0 <= i < scanned.len() && (#[trigger] scanned[i]).symbols.len() > 0 ==> exists|j: int|
            0 <= j < sf.len() && holds_file(#[trigger] sf[j], scanned[i]),
{
    assert forall|i: int| 0 <= i < scanned.len() && (#[trigger] scanned[i]).symbols.len() > 0 implies exists|j: int|
        0 <= j < sf.len() && holds_file(#[trigger] sf[j], scanned[i]) by {
        let k = choose|k: int| 0 <= k < files.len() && holds_file(#[trigger] files[k], scanned[i]);
        let j = choose|j: int| 0 <= j < sf.len() && sf[j] == #[trigger] files[k];
        assert(holds_file(sf[j], scanned[i]));
    }
}


} // verus!
