use agentcode::json::{json_i64, json_string, json_usize, serialize_map, serialized_len, symbol_to_json};
use agentcode::models::{ContextMap, FileMap, Symbol, SymbolKind};
use serde_json::Value;

#[test]
fn strings_are_escaped_as_serde_json_does() {
    assert_eq!(json_string("plain"), "\"plain\"");
    assert_eq!(json_string("a\"b\\c"), "\"a\\\"b\\\\c\"");
    assert_eq!(json_string("\n\t\r\u{8}\u{c}"), "\"\\n\\t\\r\\b\\f\"");
    assert_eq!(json_string("\u{1}\u{1f}"), "\"\\u0001\\u001f\"");
    assert_eq!(json_string("é/\u{7f}"), "\"é/\u{7f}\"");
    assert_eq!(json_string(""), "\"\"");
}

#[test]
fn numbers_are_written_in_decimal() {
    assert_eq!(json_usize(0), "0");
    assert_eq!(json_usize(120), "120");
    assert_eq!(json_i64(-32601), "-32601");
}

#[test]
fn symbol_fields_come_in_order() {
    let s = Symbol::new("main".to_string(), SymbolKind::Function, 12, Some("fn main() {".to_string()));
    assert_eq!(
        symbol_to_json(&s),
        "{\"name\":\"main\",\"kind\":\"function\",\"line\":12,\"signature\":\"fn main() {\"}"
    );
    let t = Symbol::new("T".to_string(), SymbolKind::Type, 1, None);
    assert_eq!(symbol_to_json(&t), "{\"name\":\"T\",\"kind\":\"type\",\"line\":1,\"signature\":null}");
}

#[test]
fn serialized_map_is_valid_json_of_its_content() {
    let map = ContextMap {
        root: "/r\"oot".to_string(),
        files: vec![
            FileMap {
                path: "src/main.rs".to_string(),
                symbols: vec![
                    Symbol::new("main".to_string(), SymbolKind::Function, 12, Some("fn main() {".to_string())),
                    Symbol::new("Über".to_string(), SymbolKind::Class, 3, None),
                ],
            },
            FileMap { path: "b.py".to_string(), symbols: vec![] },
        ],
    };
    let text = serialize_map(&map);
    assert_eq!(
        text,
        "{\"root\":\"/r\\\"oot\",\"files\":[{\"path\":\"src/main.rs\",\"symbols\":[{\"name\":\"main\",\"kind\":\"function\",\"line\":12,\"signature\":\"fn main() {\"},{\"name\":\"Über\",\"kind\":\"class\",\"line\":3,\"signature\":null}]},{\"path\":\"b.py\",\"symbols\":[]}]}"
    );
    let value: Value = serde_json::from_str(&text).unwrap();
    assert_eq!(value["root"], "/r\"oot");
    assert_eq!(value["files"][0]["symbols"][1]["name"], "Über");
    assert_eq!(serialized_len(&map), text.len());
}
