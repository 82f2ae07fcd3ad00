use kva::text::{apply_float_values, float_candidates, Parser};
use kva::{KvData, KvEntry};

/// Reads `input` with the default options, then gives the values that read as floats
/// their `f32` type, as the text reader of the crate's users does.
fn parse_with_floats(input: &str) -> KvEntry {
    let mut parser = Parser::new(input);
    let root = parser.parse().unwrap();
    let table: Vec<(String, u32)> = float_candidates(&root)
        .into_iter()
        .filter_map(|s| s.parse::<f32>().ok().map(|f| (s, f.to_bits())))
        .collect();
    apply_float_values(root, &table)
}

#[test]
fn parses_source_style_text() {
    let input = r#"
// leading comment
"root"
{
    bare unquoted
    "quoted { key }" "quoted value"
}
"#;

    let mut parser = Parser::new(input);
    let root = parser.parse().unwrap();

    assert_eq!(root.name, "root");
    assert_eq!(root.get_str("bare"), Some("unquoted"));
    assert_eq!(root.get_str("quoted { key }"), Some("quoted value"));
}

#[test]
fn escape_sequences_are_opt_in() {
    let input = r#""root" { "path" "C:\Games\Steam" }"#;
    let mut parser = Parser::new(input);
    let root = parser.parse().unwrap();
    assert_eq!(root.get_str("path"), Some(r"C:\Games\Steam"));

    let input = r#""root" { "quote" "a\"b" "line" "a\nb" }"#;
    let mut parser = Parser::with_escape_sequences(input);
    let root = parser.parse().unwrap();
    assert_eq!(root.get_str("quote"), Some("a\"b"));
    assert_eq!(root.get_str("line"), Some("a\nb"));
}

#[test]
fn infers_source_numeric_values() {
    let input = r#"
"root"
{
    "int" "42"
    "float" "1e2"
    "uint64" "0x000000000000002a"
    "big_integer_string" "999999999999"
}
"#;

    let root = parse_with_floats(input);

    assert_eq!(root.get_int("int"), Some(42));
    let float = root.get("float").and_then(|e| e.data.as_float()).map(f32::from_bits);
    assert_eq!(float, Some(100.0));
    assert_eq!(root.get_uint64("uint64"), Some(42));
    assert_eq!(root.get_str("big_integer_string"), Some("999999999999"));
}

#[test]
fn skip_conditionals() {
    let input = r#"
"root"
{
    "before_value" [$WIN32] "yes"
    "after_value" "yes" [$LINUX]
}
"#;

    let mut parser = Parser::new(input);
    let root = parser.parse().unwrap();

    assert_eq!(root.get_str("before_value"), Some("yes"));
    assert_eq!(root.get_str("after_value"), Some("yes"));
}

#[test]
fn parses_generated_quoted_leaf() {
    for (key, value) in [("k", "v"), ("Key_9", "a b.c-d"), ("x0", "_")] {
        let input = format!(r#""root" {{ "{key}" "{value}" }}"#);
        let mut parser = Parser::new(&input);
        let root = parser.parse().unwrap();
        assert_eq!(root.get_str(key), Some(value));
    }
}

#[test]
fn unterminated_input_is_an_error() {
    let mut parser = Parser::new(r#""root" { "k" "v""#);
    assert_eq!(parser.parse(), Err(kva::Error::UnexpectedEof));
    let mut parser = Parser::new(r#""root" "v"#);
    assert_eq!(parser.parse(), Err(kva::Error::UnexpectedEof));
    let mut parser = Parser::new(r#"{ "k" "v" }"#);
    assert_eq!(parser.parse(), Err(kva::Error::UnexpectedToken));
}

#[test]
fn byte_order_mark_is_skipped() {
    let root = kva::text::from_str("\u{feff}\"root\" { \"k\" \"7\" }").unwrap();
    assert_eq!(root.name, "root");
    assert_eq!(root.get("k").map(|e| &e.data), Some(&KvData::Int(7)));
}
