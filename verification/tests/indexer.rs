use agentcode::indexer::{
    extract_symbols, first_line_signature, grammar_for_extension, index_source, symbol_kind_of_node,
    symbols_from_captures, Grammar, RawCapture,
};
use agentcode::models::SymbolKind;

fn capture(capture: &str, kind: &str, row: usize, text: &str) -> RawCapture {
    RawCapture { capture: capture.to_string(), kind: kind.to_string(), row, text: text.to_string() }
}

#[test]
fn extracts_representative_typescript_symbols() {
    let source = r#"
        export interface Shape {}
        export type Identifier = string;
        export class Box {}
        export function makeBox() {}
        export const makeThing = () => {};
        "#;

    let symbols = extract_symbols(source, Grammar::TypeScript);
    let names: Vec<_> = symbols.iter().map(|symbol| symbol.name.as_str()).collect();
    assert!(names.contains(&"Shape"));
    assert!(names.contains(&"Identifier"));
    assert!(names.contains(&"Box"));
    assert!(names.contains(&"makeBox"));
    assert!(names.contains(&"makeThing"));
    assert!(symbols.iter().any(|symbol| symbol.kind == SymbolKind::Interface));
    assert!(symbols.iter().any(|symbol| symbol.kind == SymbolKind::Type));
}

#[test]
fn extracts_tsx_symbols_from_jsx_bearing_source() {
    let source = r#"
        export interface Props { name: string }
        export const Widget = ({ name }: Props) => <div>{name}</div>;
        export function App() { return <Widget name="x" />; }
        "#;

    let symbols = extract_symbols(source, Grammar::Tsx);
    let names: Vec<_> = symbols.iter().map(|symbol| symbol.name.as_str()).collect();
    assert!(names.contains(&"Props"));
    assert!(names.contains(&"Widget"));
    assert!(names.contains(&"App"));
}

#[test]
fn extracts_rust_and_python_symbols_with_lines_and_signatures() {
    let rust = "pub struct Alpha {\n    x: u8,\n}\n\npub fn beta() {}\nenum Gamma { A }\n";
    let symbols = index_source("rs", rust);
    assert_eq!(symbols.len(), 3);
    assert_eq!(symbols[0].name, "Alpha");
    assert_eq!(symbols[0].kind, SymbolKind::Class);
    assert_eq!(symbols[0].line, 1);
    assert_eq!(symbols[0].signature.as_deref(), Some("pub struct Alpha {"));
    assert_eq!(symbols[1].name, "beta");
    assert_eq!(symbols[1].kind, SymbolKind::Function);
    assert_eq!(symbols[1].line, 5);
    assert_eq!(symbols[2].name, "Gamma");
    assert_eq!(symbols[2].kind, SymbolKind::Type);

    let python = "class A:\n    def m(self):\n        pass\n\ndef f():\n    pass\n";
    let symbols = index_source("py", python);
    let names: Vec<_> = symbols.iter().map(|s| (s.name.as_str(), s.line)).collect();
    assert_eq!(names, vec![("A", 1), ("m", 2), ("f", 5)]);
    assert!(index_source("md", "# title").is_empty());
}

#[test]
fn extensions_choose_grammars() {
    assert_eq!(grammar_for_extension("ts"), Some(Grammar::TypeScript));
    assert_eq!(grammar_for_extension("js"), Some(Grammar::TypeScript));
    assert_eq!(grammar_for_extension("tsx"), Some(Grammar::Tsx));
    assert_eq!(grammar_for_extension("jsx"), Some(Grammar::Tsx));
    assert_eq!(grammar_for_extension("py"), Some(Grammar::Python));
    assert_eq!(grammar_for_extension("rs"), Some(Grammar::Rust));
    assert_eq!(grammar_for_extension("txt"), None);
    assert_eq!(grammar_for_extension(""), None);
}

#[test]
fn node_kinds_map_to_symbol_kinds() {
    assert_eq!(symbol_kind_of_node("struct_item"), SymbolKind::Class);
    assert_eq!(symbol_kind_of_node("interface_declaration"), SymbolKind::Interface);
    assert_eq!(symbol_kind_of_node("enum_declaration"), SymbolKind::Type);
    assert_eq!(symbol_kind_of_node("function_item"), SymbolKind::Function);
    assert_eq!(symbol_kind_of_node("method_definition"), SymbolKind::Method);
    assert_eq!(symbol_kind_of_node("lexical_declaration"), SymbolKind::Function);
    assert_eq!(symbol_kind_of_node("something_else"), SymbolKind::Other);
}

#[test]
fn signature_is_first_line_trimmed() {
    assert_eq!(first_line_signature("  fn a() {\r\n  body\n}").as_deref(), Some("fn a() {"));
    assert_eq!(first_line_signature("\nrest").as_deref(), Some(""));
    assert_eq!(first_line_signature(""), None);
}

#[test]
fn captures_become_sorted_symbols() {
    let matches = vec![
        vec![capture("item", "function_item", 9, "fn z() {}"), capture("name", "identifier", 9, "z")],
        vec![capture("item", "struct_item", 2, "struct B;"), capture("name", "type_identifier", 2, "B")],
        vec![capture("item", "struct_item", 2, "struct A;"), capture("name", "type_identifier", 2, "A")],
        vec![capture("name", "identifier", 4, "lonely")],
    ];
    let symbols = symbols_from_captures(&matches);
    let got: Vec<_> = symbols.iter().map(|s| (s.name.as_str(), s.line)).collect();
    assert_eq!(got, vec![("A", 3), ("B", 3), ("z", 10)]);
    assert_eq!(symbols[2].kind, SymbolKind::Function);
    assert_eq!(symbols[0].signature.as_deref(), Some("struct A;"));
}

#[test]
fn extension_match_is_exact_and_kinds_are_known() {
    let rust = "pub struct Alpha;\nfn beta() {}\n";
    assert!(index_source("RS", rust).is_empty());
    assert_eq!(index_source("rs", rust).len(), 2);
    let ts = "class A { m() {} }\nconst f = function () {};\nlet x = 1;\n";
    let symbols = index_source("js", ts);
    let names: Vec<_> = symbols.iter().map(|s| s.name.as_str()).collect();
    assert_eq!(names, vec!["A", "m", "f"]);
    assert_eq!(symbols[1].kind, SymbolKind::Method);
    assert!(symbols.iter().all(|s| s.kind != SymbolKind::Other && s.kind != SymbolKind::Variable));
}
