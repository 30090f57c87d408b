use agentcode::budgeter::{apply_budget, candidate_roots, drop_last_symbol, file_score, kind_weight, minimal_map, symbol_score, truncated_roots, Budget};
use agentcode::json::{serialize_map, serialized_len};
use agentcode::models::{ContextMap, FileMap, Symbol, SymbolKind};
use serde_json::Value;

fn symbol(name: &str, kind: SymbolKind, line: usize, signature: Option<&str>) -> Symbol {
    Symbol::new(name.to_string(), kind, line, signature.map(|s| s.to_string()))
}

fn kind_text(kind: SymbolKind) -> &'static str {
    match kind {
        SymbolKind::Class => "class",
        SymbolKind::Interface => "interface",
        SymbolKind::Type => "type",
        SymbolKind::Method => "method",
        SymbolKind::Function => "function",
        SymbolKind::Variable => "variable",
        SymbolKind::Other => "other",
    }
}

/// The map as a `serde_json` value, built by calls.
fn to_value(map: &ContextMap) -> Value {
    let mut files = Vec::new();
    for file in &map.files {
        let mut symbols = Vec::new();
        for s in &file.symbols {
            let mut o = serde_json::Map::new();
            o.insert("name".to_string(), Value::String(s.name.clone()));
            o.insert("kind".to_string(), Value::String(kind_text(s.kind).to_string()));
            o.insert("line".to_string(), Value::from(s.line));
            o.insert(
                "signature".to_string(),
                match &s.signature {
                    Some(v) => Value::String(v.clone()),
                    None => Value::Null,
                },
            );
            symbols.push(Value::Object(o));
        }
        let mut o = serde_json::Map::new();
        o.insert("path".to_string(), Value::String(file.path.clone()));
        o.insert("symbols".to_string(), Value::Array(symbols));
        files.push(Value::Object(o));
    }
    let mut o = serde_json::Map::new();
    o.insert("root".to_string(), Value::String(map.root.clone()));
    o.insert("files".to_string(), Value::Array(files));
    Value::Object(o)
}

fn json_size(map: &ContextMap) -> usize {
    serde_json::to_vec(&to_value(map)).unwrap().len()
}

fn sample_map() -> ContextMap {
    ContextMap {
        root: ".".to_string(),
        files: vec![
            FileMap {
                path: "a.rs".to_string(),
                symbols: vec![
                    symbol("Alpha", SymbolKind::Class, 1, Some("pub struct Alpha {}")),
                    symbol("beta", SymbolKind::Function, 5, Some("pub fn beta() {}")),
                ],
            },
            FileMap {
                path: "b.rs".to_string(),
                symbols: vec![symbol("gamma", SymbolKind::Function, 3, Some("pub fn gamma() {}"))],
            },
        ],
    }
}

#[test]
fn parses_budget_values() {
    assert_eq!(Budget::parse("1").unwrap().max_tokens(), 1);
    assert_eq!(Budget::parse("8000").unwrap().max_tokens(), 8000);
    assert_eq!(Budget::parse("8k").unwrap().max_tokens(), 8000);
    assert_eq!(Budget::parse("32K").unwrap().max_tokens(), 32000);
    assert!(Budget::parse("0").is_err());
    assert!(Budget::parse("abc").is_err());
}

#[test]
fn prunes_output_to_budget() {
    let map = sample_map();
    let budget = Budget::parse("20").unwrap();
    let (pruned, summary) = apply_budget(&map, budget);
    assert!(json_size(&pruned) <= summary.max_bytes);
    assert!(summary.retained_files <= summary.indexed_files);
}

#[test]
fn enforces_minimum_representable_budget_for_tiny_values() {
    let map = ContextMap { root: "/very/long/root/path".to_string(), files: vec![] };
    let (pruned, summary) = apply_budget(&map, Budget::parse("1").unwrap());
    assert_eq!(pruned.files.len(), 0);
    assert!(json_size(&pruned) <= summary.max_bytes);
    assert_eq!(summary.requested_max_bytes, 4);
    assert_eq!(summary.output_bytes, json_size(&pruned));
}

#[test]
fn truncates_root_when_empty_map_would_overflow_requested_budget() {
    let map = ContextMap {
        root: "/this/is/a/path/that/will/not/fit".to_string(),
        files: vec![FileMap {
            path: "a.rs".to_string(),
            symbols: vec![symbol("alpha", SymbolKind::Function, 1, Some("fn alpha() {}"))],
        }],
    };
    let (pruned, summary) = apply_budget(&map, Budget::parse("2").unwrap());
    assert!(json_size(&pruned) <= summary.max_bytes);
    assert!(pruned.root.len() <= map.root.len());
}

#[test]
fn budget_parse_reports_each_error() {
    assert_eq!(Budget::parse("   ").unwrap_err(), "budget cannot be empty");
    assert_eq!(Budget::parse("abc").unwrap_err(), "invalid budget value: abc");
    assert_eq!(Budget::parse(" 9x ").unwrap_err(), "invalid budget value:  9x ");
    assert_eq!(
        Budget::parse("18446744073709552k").unwrap_err(),
        "budget is too large: 18446744073709552k"
    );
    assert_eq!(Budget::parse("0k").unwrap_err(), "budget must be greater than zero");
    assert_eq!(Budget::parse("k").unwrap_err(), "invalid budget value: k");
    assert_eq!(
        Budget::parse("99999999999999999999").unwrap_err(),
        "invalid budget value: 99999999999999999999"
    );
}

#[test]
fn budget_parse_accepts_sign_spaces_and_suffix() {
    assert_eq!(Budget::parse("  +12 ").unwrap().max_tokens(), 12);
    assert_eq!(Budget::parse("\t128K\n").unwrap().max_tokens(), 128000);
    assert_eq!(Budget::parse("+3k").unwrap().max_tokens(), 3000);
    assert!(Budget::parse("+").is_err());
    assert!(Budget::parse("-5").is_err());
    assert!(Budget::parse("5kk").is_err());
}

#[test]
fn max_bytes_is_four_per_token_and_saturates() {
    assert_eq!(Budget::parse("8k").unwrap().max_bytes(), 32000);
    let huge = Budget::parse(&usize::MAX.to_string()).unwrap();
    assert_eq!(huge.max_bytes(), usize::MAX);
}

#[test]
fn scores_follow_their_weights() {
    assert_eq!(kind_weight(SymbolKind::Class), 80);
    assert_eq!(kind_weight(SymbolKind::Other), 20);
    let s = symbol("ab", SymbolKind::Function, 1, Some("fn ab()"));
    // 7 bytes of signature, 2 * 8 for the name, 55 for a function
    assert_eq!(symbol_score(&s), 7 + 16 + 55);
    let f = FileMap { path: "x.rs".to_string(), symbols: vec![s] };
    assert_eq!(file_score(&f), 100 + 78 + 4);
}

#[test]
fn truncations_and_candidates_of_a_root() {
    let t = truncated_roots("abcd");
    assert_eq!(t, vec!["abc...".to_string(), "ab...".to_string(), "a...".to_string()]);
    assert!(truncated_roots("a").is_empty());
    let c = candidate_roots("ab...");
    assert_eq!(
        c,
        vec!["ab...".to_string(), "ab.....".to_string(), "ab....".to_string(), "a...".to_string(), "".to_string()]
    );
    assert_eq!(candidate_roots(""), vec!["".to_string()]);
}

#[test]
fn minimal_map_takes_the_first_root_that_fits() {
    // {"root":"abcd","files":[]} is 26 bytes
    assert_eq!(minimal_map("abcd", 26).root, "abcd");
    // {"root":"a...","files":[]} is 26 bytes as well, "abc..." would take 28
    assert_eq!(minimal_map("abcdef", 26).root, "a...");
    assert_eq!(minimal_map("abcd", 21).root, "");
}

#[test]
fn limit_is_never_below_the_smallest_map() {
    let map = sample_map();
    let (pruned, summary) = apply_budget(&map, Budget::parse("1").unwrap());
    assert_eq!(summary.max_bytes, 22);
    assert_eq!(pruned.root, "");
    assert!(pruned.files.is_empty());
    assert_eq!(serialize_map(&pruned), "{\"root\":\"\",\"files\":[]}");
}

#[test]
fn generous_budget_keeps_everything_in_rank_order() {
    let map = sample_map();
    let (pruned, summary) = apply_budget(&map, Budget::parse("8k").unwrap());
    assert_eq!(summary.max_bytes, 32000);
    assert_eq!(summary.retained_files, 2);
    assert_eq!(pruned.root, ".");
    // a.rs scores higher (two symbols), Alpha (a class) before beta
    assert_eq!(pruned.files[0].path, "a.rs");
    assert_eq!(pruned.files[0].symbols[0].name, "Alpha");
    assert_eq!(pruned.files[0].symbols[1].name, "beta");
    assert_eq!(pruned.files[1].path, "b.rs");
    assert_eq!(summary.output_bytes, json_size(&pruned));
    assert_eq!(serialized_len(&pruned), json_size(&pruned));
}

#[test]
fn tight_budget_keeps_what_fits() {
    let map = sample_map();
    let (pruned, summary) = apply_budget(&map, Budget::parse("32").unwrap());
    assert_eq!(summary.max_bytes, 128);
    assert_eq!(json_size(&pruned), 125);
    assert_eq!(pruned.files.len(), 1);
    assert_eq!(pruned.files[0].path, "a.rs");
    assert_eq!(pruned.files[0].symbols.len(), 1);
    assert_eq!(pruned.files[0].symbols[0].name, "Alpha");
}

#[test]
fn dropping_symbols_removes_emptied_files() {
    let mut map = sample_map();
    assert!(drop_last_symbol(&mut map));
    assert_eq!(map.files.len(), 1);
    assert!(drop_last_symbol(&mut map));
    assert_eq!(map.files[0].symbols.len(), 1);
    assert!(drop_last_symbol(&mut map));
    assert!(map.files.is_empty());
    assert!(!drop_last_symbol(&mut map));
}

#[test]
fn budget_ignores_surrounding_space_and_ascii_case() {
    for input in ["8k", "12", "+3K", "0", "abc", "", "5kk"] {
        let plain = Budget::parse(input).ok().map(|b| b.max_tokens());
        let padded = Budget::parse(&format!("  {}\t\n", input)).ok().map(|b| b.max_tokens());
        let upper = Budget::parse(&input.to_ascii_uppercase()).ok().map(|b| b.max_tokens());
        assert_eq!(plain, padded);
        assert_eq!(plain, upper);
    }
    assert_eq!(Budget::parse(" 8K ").unwrap().max_tokens(), 8000);
}

#[test]
fn file_order_does_not_change_the_pruned_map() {
    let map = sample_map();
    let mut files = sample_map().files;
    files.reverse();
    let reordered = ContextMap { root: map.root.clone(), files };
    for budget in ["1", "20", "40", "8k"] {
        let budget = Budget::parse(budget).unwrap();
        let (a, sa) = apply_budget(&map, budget);
        let (b, sb) = apply_budget(&reordered, budget);
        assert_eq!(serialize_map(&a), serialize_map(&b));
        assert_eq!(sa, sb);
    }
}
