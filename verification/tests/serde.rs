use std::collections::BTreeMap;

use kva::de::{MapReader, SeqReader, ValueDeserializer};
use kva::ser::{bool_data, string_data, Binary, CompoundSerializer, MapSerializer, Serializer, Text};
use kva::text::{Options, Parser};
use kva::{binary, text, KvData, KvEntry};

#[derive(Debug, PartialEq)]
struct BorrowedConfig {
    name: String,
    code: String,
    count: i32,
    enabled: bool,
    id: u64,
    tags: Vec<String>,
    attrs: BTreeMap<String, i32>,
}

#[derive(Debug, PartialEq)]
struct OwnedConfig {
    name: String,
    count: i32,
    enabled: bool,
    id: u64,
    tags: Vec<String>,
}

/// The entries of a value read as a struct or map, in order, with their values.
fn fields(data: &KvData) -> Vec<(String, &KvData)> {
    let entries = data.as_compound().unwrap();
    let mut reader = MapReader::new(entries);
    let mut out = Vec::new();
    while let Some(key) = reader.next_key() {
        let key = key.clone();
        let value = reader.next_value().unwrap();
        out.push((key, value));
    }
    out
}

/// A value read as a sequence of strings.
fn strings(data: &KvData, human: bool) -> Vec<String> {
    let entries = data.as_compound().unwrap();
    let mut reader = SeqReader::new(entries);
    let mut out = Vec::new();
    while let Some(value) = reader.next_element() {
        out.push(ValueDeserializer::new(value, human).string_value().unwrap());
    }
    out
}

fn decode_borrowed(root: &KvEntry, human: bool) -> BorrowedConfig {
    let mut config = BorrowedConfig {
        name: String::new(),
        code: String::new(),
        count: 0,
        enabled: false,
        id: 0,
        tags: Vec::new(),
        attrs: BTreeMap::new(),
    };
    for (key, value) in fields(&root.data) {
        let de = ValueDeserializer::new(value, human);
        match key.as_str() {
            "name" => config.name = de.string_value().unwrap(),
            "code" => config.code = de.string_value().unwrap(),
            "count" => config.count = de.deserialize_i32().unwrap(),
            "enabled" => config.enabled = de.parse_bool().unwrap(),
            "id" => config.id = de.parse_u64().unwrap(),
            "tags" => config.tags = strings(value, human),
            "attrs" => {
                for (k, v) in fields(value) {
                    config.attrs.insert(k, ValueDeserializer::new(v, human).deserialize_i32().unwrap());
                }
            }
            _ => {}
        }
    }
    config
}

fn decode_owned(root: &KvEntry, human: bool) -> OwnedConfig {
    let mut config = OwnedConfig { name: String::new(), count: 0, enabled: false, id: 0, tags: Vec::new() };
    for (key, value) in fields(&root.data) {
        let de = ValueDeserializer::new(value, human);
        match key.as_str() {
            "name" => config.name = de.string_value().unwrap(),
            "count" => config.count = de.deserialize_i32().unwrap(),
            "enabled" => config.enabled = de.parse_bool().unwrap(),
            "id" => config.id = de.parse_u64().unwrap(),
            "tags" => config.tags = strings(value, human),
            _ => {}
        }
    }
    config
}

fn tags_data(tags: &[String]) -> KvData {
    let mut seq = CompoundSerializer::<Text>::new();
    for t in tags {
        seq.serialize_element(string_data(t.clone()));
    }
    seq.end().unwrap()
}

#[test]
fn keep_numeric_strings() {
    let input = r#"
"weapon"
{
    "name" "ak47"
    "code" "42"
    "count" "30"
    "enabled" "1"
    "id" "18446744073709551615"
    "tags"
    {
        "0" "rifle"
        "1" "primary"
    }
    "attrs"
    {
        "damage" "36"
        "price" "2700"
    }
}
"#;

    let parsed = Parser::new(input).numeric_inference(false).parse().unwrap();

    let value = decode_borrowed(&parsed, true);

    assert_eq!(value.name, "ak47");
    assert_eq!(value.code, "42");
    assert_eq!(value.count, 30);
    assert!(value.enabled);
    assert_eq!(value.id, u64::MAX);
    assert_eq!(value.tags, ["rifle", "primary"]);
    assert_eq!(value.attrs["damage"], 36);
}

#[test]
fn text_roundtrip() {
    let mut attrs = BTreeMap::new();
    attrs.insert("damage".to_owned(), 36);
    attrs.insert("price".to_owned(), 2700);

    let value = BorrowedConfig {
        name: "ak47".to_owned(),
        code: "42".to_owned(),
        count: 30,
        enabled: true,
        id: u64::MAX,
        tags: vec!["rifle".to_owned(), "primary".to_owned()],
        attrs,
    };

    let mut map = Serializer::<Text>::new("weapon").serialize_map();
    map.serialize_field("name", string_data(value.name.clone()));
    map.serialize_field("code", string_data(value.code.clone()));
    map.serialize_field("count", KvData::Int(value.count));
    map.serialize_field("enabled", bool_data(value.enabled));
    map.serialize_field("id", KvData::UInt64(value.id));
    map.serialize_field("tags", tags_data(&value.tags));
    let mut attrs = MapSerializer::<Text>::new();
    for (k, v) in &value.attrs {
        attrs.serialize_key(k.clone()).unwrap();
        attrs.serialize_value(KvData::Int(*v)).unwrap();
    }
    map.serialize_field("attrs", attrs.end().unwrap());
    let text = map.end(&Vec::new()).unwrap();

    let parsed = text::from_str_options(
        &text,
        Options {
            escape_sequences: false,
            numeric_inference: false,
        },
    )
    .unwrap();
    let decoded = decode_borrowed(&parsed, true);

    assert_eq!(decoded, value);
}

#[test]
fn binary_roundtrip() {
    let value = OwnedConfig {
        name: "ak47".to_owned(),
        count: 30,
        enabled: true,
        id: u64::MAX,
        tags: vec!["rifle".to_owned(), "primary".to_owned()],
    };

    let mut map = Serializer::<Binary>::new("weapon").serialize_map();
    map.serialize_field("name", string_data(value.name.clone()));
    map.serialize_field("count", KvData::Int(value.count));
    map.serialize_field("enabled", bool_data(value.enabled));
    map.serialize_field("id", KvData::UInt64(value.id));
    map.serialize_field("tags", tags_data(&value.tags));
    let bytes = map.end(&Vec::new()).unwrap();

    let root = binary::from_slice(&bytes).unwrap();
    let decoded = decode_owned(&root, false);

    assert_eq!(decoded, value);
}

#[test]
fn serde_entry_points() {
    let input = r#""weapon" { "name" "ak47" "count" "30" "enabled" "true" "id" "42" "tags" { "0" "rifle" } }"#;
    let parsed = Parser::new(input).parse().unwrap();

    let decoded = decode_owned(&parsed, true);

    assert_eq!(decoded.name, "ak47");
    assert_eq!(decoded.tags, ["rifle"]);
}

#[test]
fn map_serializer_protocol_errors() {
    let mut map = MapSerializer::<Text>::new();
    let err = map.serialize_value(KvData::Int(1)).unwrap_err();
    assert_eq!(err, kva::Error::Message("serialize_key was not called".to_owned()));
    map.serialize_key("a".to_owned()).unwrap();
    let err = map.serialize_key("b".to_owned()).unwrap_err();
    assert_eq!(err, kva::Error::Message("serialize_value was not called".to_owned()));
    let err = map.end().unwrap_err();
    assert_eq!(err, kva::Error::Message("serialize_value was not called".to_owned()));
}
