use kva::de::{MapReader, ValueDeserializer};
use kva::text::{self, Options, Parser};
use std::collections::BTreeMap;

const HUD_LINE: &str = r#"
"Resource/UI/HudSpectator.res"
{
    "HudSpecPlayer_WeaponName"        "<span class=\"possessive-player-name\">{s:possessive_player_name}</span><br><span class=\"weapon-name\">{s:weapon_name}</span><br><font color=\"{s:rarity_color}\"><span class=\"weapon-kit-name\">{s:weapon_kit_name}</span><br><span class=\"weapon-name-custom\">{s:weapon_name_custom}</span></font>"
}
"#;

#[test]
fn escaped_quotes() {
    let root = Parser::with_escape_sequences(HUD_LINE).parse().unwrap();
    let value = root.get_str("HudSpecPlayer_WeaponName").unwrap();

    let expected = [
        r#"<span class="possessive-player-name">{s:possessive_player_name}</span><br>"#,
        r#"<span class="weapon-name">{s:weapon_name}</span><br>"#,
        r#"<font color="{s:rarity_color}">"#,
        r#"<span class="weapon-kit-name">{s:weapon_kit_name}</span><br>"#,
        r#"<span class="weapon-name-custom">{s:weapon_name_custom}</span></font>"#,
    ]
    .concat();
    assert_eq!(value, expected);
}

#[test]
fn escapes_is_preserved() {
    let root = Parser::with_escape_sequences(r#""root" { "k" "a\"BCD\"e" }"#)
        .parse()
        .unwrap();
    assert_eq!(root.get_str("k"), Some(r#"a"BCD"e"#));
}

#[test]
fn escapes_remain_opt_in() {
    let root = Parser::new(r#""root" { "path" "C:\Games\Steam" }"#)
        .parse()
        .unwrap();
    assert_eq!(root.get_str("path"), Some(r#"C:\Games\Steam"#));
}

#[derive(Debug, PartialEq)]
struct Inner {
    b: String,
    c: String,
}

#[derive(Debug, PartialEq)]
struct Outer {
    a: String,
    inner: Inner,
}

/// The root's entries as text, by name, as a flattening reader collects them.
fn collect(root: &kva::KvEntry) -> BTreeMap<String, String> {
    let mut reader = MapReader::new(root.data.as_compound().unwrap());
    let mut out = BTreeMap::new();
    while let Some(key) = reader.next_key() {
        let key = key.clone();
        let value = reader.next_value().unwrap();
        out.insert(key, ValueDeserializer::new(value, true).string_value().unwrap());
    }
    out
}

#[test]
fn flatten_into_struct() {
    let input = r#"
"root"
{
    "a" "aa"
    "b" "bb"
    "c" "cc"
}
"#;
    let root = text::from_str(input).unwrap();
    let mut all = collect(&root);
    let decoded = Outer {
        a: all.remove("a").unwrap(),
        inner: Inner {
            b: all.remove("b").unwrap(),
            c: all.remove("c").unwrap(),
        },
    };
    assert_eq!(
        decoded,
        Outer {
            a: "aa".into(),
            inner: Inner {
                b: "bb".into(),
                c: "cc".into(),
            },
        }
    );
}

#[test]
fn flatten_into_catch_all_map() {
    let input = r#"
"weapon"
{
    "name"  "ak47"
    "count" "30"
    "clip"  "1"
}
"#;
    let root = text::from_str(input).unwrap();
    let mut rest = collect(&root);
    let name = rest.remove("name").unwrap();
    assert_eq!(name, "ak47");
    assert_eq!(rest.get("count").map(String::as_str), Some("30"));
    assert_eq!(rest.get("clip").map(String::as_str), Some("1"));
}

#[test]
fn independent_of_num_infer() {
    let input = r#"
"weapon"
{
    "name"  "ak47"
    "count" "30"
}
"#;
    let opts = Options {
        escape_sequences: false,
        numeric_inference: false,
    };
    let root = text::from_str_options(input, opts).unwrap();
    let rest = collect(&root);
    assert_eq!(rest.get("count").map(String::as_str), Some("30"));
}
