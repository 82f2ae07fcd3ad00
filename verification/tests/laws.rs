use kva::de::{key_bool, key_char, parse_key_int, parse_key_uint, parse_u64, ValueDeserializer};
use kva::ser::{bool_data, bool_key, char_key, i64_data, int_key, string_data, u64_data, uint_key, variant_data, CompoundSerializer, Text, VariantSerializer};
use kva::text::Options;
use kva::{binary, text, Dialect, Error, KvData, KvEntry};

fn entry(name: &str, data: KvData) -> KvEntry {
    KvEntry { name: name.to_owned(), data }
}

fn sample() -> KvData {
    KvData::Compound(vec![
        entry("s", KvData::String("a \"quoted\" \\ value\n".to_owned())),
        entry("i", KvData::Int(-7)),
        entry("big", KvData::Int64(-5_000_000_000)),
        entry("u", KvData::UInt64(u64::MAX)),
        entry("f", KvData::Float(1.5_f32.to_bits())),
        entry("p", KvData::Pointer(31337)),
        entry("c", KvData::Color(0xff00ff)),
        entry("w", KvData::WideString(vec![104, 105])),
        entry("b", KvData::BinaryString(vec![0, 1, 2])),
        entry("nested", KvData::Compound(vec![entry("x", KvData::String(String::new()))])),
    ])
}

#[test]
fn binary_write_then_read_gives_the_entry() {
    let data = sample();
    let bytes = binary::to_vec("root", &data).unwrap();
    let root = binary::from_slice(&bytes).unwrap();
    assert_eq!(root, entry("root", data));
}

#[test]
fn source_write_then_read_gives_the_entry() {
    let data = KvData::Compound(vec![
        entry("zero", KvData::Int(0)),
        entry("one", KvData::Int(1)),
        entry("byte", KvData::Int(200)),
        entry("int", KvData::Int(-3)),
        entry("s", KvData::String("x".to_owned())),
    ]);
    let bytes = binary::to_vec_dialect("root", &data, Dialect::Source).unwrap();
    assert_eq!(&bytes[..6], &[0, b'r', b'o', b'o', b't', 0]);
    assert_eq!(&bytes[6..12], &[9, b'z', b'e', b'r', b'o', 0]);
    let root = binary::from_slice_dialect(&bytes, Dialect::Source).unwrap();
    assert_eq!(root, entry("root", data));
}

#[test]
fn binary_writer_refusals() {
    assert_eq!(
        binary::to_vec_dialect("r", &KvData::Int64(1), Dialect::Source),
        Err(Error::Unsupported("int64 in source kv"))
    );
    assert_eq!(
        binary::to_vec_dialect("r", &KvData::BinaryString(vec![1]), Dialect::Source),
        Err(Error::Unsupported("binary string in source kv"))
    );
    assert_eq!(
        binary::to_vec("a\0b", &KvData::Int(1)),
        Err(Error::Message("strings cannot contain NUL bytes".to_owned()))
    );
    assert_eq!(binary::from_slice(&[8]), Err(Error::UnexpectedEnd));
}

#[test]
fn binary_invalid_utf8_is_replaced() {
    let root = binary::from_slice(&[1, b'k', 0, 0xff, b'a', 0]).unwrap();
    assert_eq!(root.name, "k");
    assert_eq!(root.data, KvData::String("\u{fffd}a".to_owned()));
}

#[test]
fn text_write_then_read_gives_the_text_of_each_value() {
    let data = KvData::Compound(vec![
        entry("s", KvData::String("a \"quoted\" \\ value\n\ttab".to_owned())),
        entry("i", KvData::Int(-7)),
        entry("u", KvData::UInt64(42)),
        entry("w", KvData::WideString(vec![104, 105])),
        entry("nested", KvData::Compound(vec![entry("x", KvData::String(String::new()))])),
    ]);
    let written = text::to_string("root", &data).unwrap();
    let exact = Options { escape_sequences: true, numeric_inference: false };
    let root = text::from_str_options(&written, exact).unwrap();
    let expected = KvData::Compound(vec![
        entry("s", KvData::String("a \"quoted\" \\ value\n\ttab".to_owned())),
        entry("i", KvData::String("-7".to_owned())),
        entry("u", KvData::String("0x000000000000002A".to_owned())),
        entry("w", KvData::String("hi".to_owned())),
        entry("nested", KvData::Compound(vec![entry("x", KvData::String(String::new()))])),
    ]);
    assert_eq!(root, entry("root", expected));

    let inferred = Options { escape_sequences: true, numeric_inference: true };
    let root = text::from_str_options(&written, inferred).unwrap();
    assert_eq!(root.get("i").map(|e| &e.data), Some(&KvData::Int(-7)));
    assert_eq!(root.get("u").map(|e| &e.data), Some(&KvData::UInt64(42)));
}

#[test]
fn text_written_without_escapes_reads_back_plain_text() {
    let data = KvData::Compound(vec![entry("path", KvData::String("C:/Games/Steam".to_owned()))]);
    let written = text::to_string("root", &data).unwrap();
    let plain = Options { escape_sequences: false, numeric_inference: false };
    assert_eq!(text::from_str_options(&written, plain).unwrap(), entry("root", data));
}

#[test]
fn text_writer_refusals_and_floats() {
    assert_eq!(
        text::to_string("r", &KvData::BinaryString(vec![1])),
        Err(Error::Unsupported("binary string in text output"))
    );
    assert_eq!(text::to_string("r", &KvData::WideString(vec![0xd800])), Err(Error::InvalidUtf16));
    assert_eq!(text::to_string("r", &KvData::Float(1.5_f32.to_bits())), Err(Error::UnexpectedToken));
    let floats = vec![(1.5_f32.to_bits(), "1.5".to_owned())];
    let written = text::to_string_with_floats("r", &KvData::Float(1.5_f32.to_bits()), &floats).unwrap();
    assert_eq!(written, "\"r\"\t\"1.5\"\n");
    assert_eq!(text::float_values(&sample()), vec![1.5_f32.to_bits()]);
}

#[test]
fn serialized_values_read_back() {
    for b in [true, false] {
        assert_eq!(ValueDeserializer::new(&bool_data(b), false).parse_bool(), Ok(b));
    }
    for v in [0_i64, -1, i32::MAX as i64 + 1, i64::MIN, i64::MAX] {
        assert_eq!(ValueDeserializer::new(&i64_data(v), false).parse_i64(), Ok(v));
    }
    for v in [0_u64, 7, i32::MAX as u64 + 1, u64::MAX] {
        assert_eq!(ValueDeserializer::new(&u64_data(v), false).parse_u64(), Ok(v));
    }
    assert_eq!(i64_data(5), KvData::Int(5));
    assert_eq!(i64_data(1 << 40), KvData::Int64(1 << 40));
    assert_eq!(u64_data(5), KvData::Int(5));
    assert_eq!(u64_data(1 << 40), KvData::UInt64(1 << 40));
    let s = string_data("x y".to_owned());
    assert_eq!(ValueDeserializer::new(&s, true).string_value(), Ok("x y".to_owned()));
}

#[test]
fn keys_read_back() {
    for v in [0_i64, -42, i64::MIN, i64::MAX] {
        assert_eq!(parse_key_int(&int_key(v), i64::MIN, i64::MAX), Ok(v));
    }
    for v in [0_u64, 42, u64::MAX] {
        assert_eq!(parse_key_uint(&uint_key(v), u64::MAX), Ok(v));
    }
    assert_eq!(key_bool(&bool_key(true)), Ok(true));
    assert_eq!(key_bool(&bool_key(false)), Ok(false));
    assert_eq!(key_char(&char_key('é')), Ok('é'));
    assert_eq!(parse_key_int("300", -128, 127), Err(Error::Message("invalid map key \"300\"".to_owned())));
    assert_eq!(key_bool("yes"), Err(Error::Message("invalid bool key \"yes\"".to_owned())));
    assert_eq!(key_char(""), Err(Error::Message("expected char key".to_owned())));
    assert_eq!(key_char("ab"), Err(Error::Message("expected one-character key".to_owned())));
}

#[test]
fn value_reading_errors() {
    let maybe = KvData::String("maybe".to_owned());
    assert_eq!(
        ValueDeserializer::new(&maybe, true).parse_bool(),
        Err(Error::Message("invalid bool value \"maybe\"".to_owned()))
    );
    assert_eq!(
        ValueDeserializer::new(&maybe, true).parse_i64(),
        Err(Error::Message("invalid integer value \"maybe\"".to_owned()))
    );
    assert_eq!(parse_u64("0xZZ"), Err(Error::Message("invalid unsigned integer value \"ZZ\"".to_owned())));
    assert_eq!(parse_u64("0X1f"), Ok(31));
    let negative = KvData::Int(-1);
    assert_eq!(
        ValueDeserializer::new(&negative, false).parse_u64(),
        Err(Error::Message("negative integer does not fit in u64".to_owned()))
    );
    let big = KvData::UInt64(u64::MAX);
    assert_eq!(
        ValueDeserializer::new(&big, false).parse_i64(),
        Err(Error::Message("u64 does not fit in i64".to_owned()))
    );
    let wide = KvData::Int(300);
    assert_eq!(
        ValueDeserializer::new(&wide, false).deserialize_i8(),
        Err(Error::Message("integer does not fit in i8".to_owned()))
    );
    assert_eq!(
        ValueDeserializer::new(&wide, false).deserialize_u8(),
        Err(Error::Message("integer does not fit in u8".to_owned()))
    );
    let empty = KvData::String(String::new());
    assert!(ValueDeserializer::new(&empty, true).is_none());
    assert_eq!(ValueDeserializer::new(&empty, true).deserialize_unit(), Ok(()));
    assert_eq!(
        ValueDeserializer::new(&empty, true).deserialize_char(),
        Err(Error::Message("expected char, found empty string".to_owned()))
    );
    let compound = KvData::Compound(vec![]);
    assert_eq!(ValueDeserializer::new(&compound, true).string_value(), Err(Error::UnexpectedToken));
    let bad_wide = KvData::WideString(vec![0xdc00]);
    assert_eq!(ValueDeserializer::new(&bad_wide, true).string_value(), Err(Error::InvalidUtf16));
}

#[test]
fn float_values_convert_like_casts() {
    let cases: [(f32, i32, u64, i64); 6] = [
        (1.9, 1, 1, 1),
        (-1.9, -1, 0, -1),
        (f32::NAN, 0, 0, 0),
        (f32::INFINITY, i32::MAX, u64::MAX, i64::MAX),
        (3e9, i32::MAX, 3_000_000_000, 3_000_000_000),
        (-1e30, i32::MIN, 0, i64::MIN),
    ];
    for (f, i, u, l) in cases {
        let d = KvData::Float(f.to_bits());
        assert_eq!(d.to_int(), Some(i));
        assert_eq!(d.to_uint64(), Some(u));
        assert_eq!(ValueDeserializer::new(&d, false).parse_i64(), Ok(l));
    }
    assert_eq!(ValueDeserializer::new(&KvData::Float((-0.0_f32).to_bits()), false).parse_bool(), Ok(false));
    assert_eq!(ValueDeserializer::new(&KvData::Float(0.5_f32.to_bits()), false).parse_bool(), Ok(true));
}

#[test]
fn integer_conversions_wrap() {
    assert_eq!(KvData::Int64(0x1_0000_0005).to_int(), Some(5));
    assert_eq!(KvData::Int(-1).to_uint64(), Some(u64::MAX));
    assert_eq!(KvData::String("+12".to_owned()).to_int(), Some(12));
    assert_eq!(KvData::String("x".to_owned()).to_uint64(), None);
}

#[test]
fn entry_lookups() {
    let root = entry(
        "root",
        KvData::Compound(vec![
            entry("a", KvData::Compound(vec![entry("x", KvData::Int(1))])),
            entry("b", KvData::String("one".to_owned())),
            entry("a", KvData::Compound(vec![entry("y", KvData::Int(2))])),
            entry("a", KvData::Int(3)),
        ]),
    );
    assert_eq!(root.iter().len(), 4);
    assert_eq!(root.iter_compounds().len(), 2);
    assert_eq!(root.iter_values().len(), 2);
    assert_eq!(root.find_all_keys("a").len(), 3);
    let all: Vec<&str> = root.iter_all_in("a").iter().map(|e| e.name.as_str()).collect();
    assert_eq!(all, ["x", "y"]);
    let merged = root.get_all("a");
    assert_eq!(merged.name, "a");
    assert_eq!(merged.data.as_compound().map(|c| c.len()), Some(2));
    assert_eq!(root.get_path("a/x").map(|e| &e.data), Some(&KvData::Int(1)));
    assert!(root.get_path("a/y").is_none());
    assert_eq!(root.get_str("b"), Some("one"));
    assert!(!root.is_empty());
    assert!(entry("leaf", KvData::Int(1)).is_empty());
}

#[test]
fn serializer_builders() {
    let mut seq = CompoundSerializer::<Text>::new();
    seq.serialize_element(KvData::Int(1));
    seq.serialize_element(KvData::Int(2));
    let data = seq.end().unwrap();
    assert_eq!(data, KvData::Compound(vec![entry("0", KvData::Int(1)), entry("1", KvData::Int(2))]));

    let mut tuple = VariantSerializer::<Text>::new("V", false);
    assert_eq!(
        tuple.serialize_field("k", KvData::Int(1)),
        Err(Error::Unsupported("unnamed struct variant field"))
    );
    tuple.serialize_element(KvData::Int(9));
    let data = tuple.end().unwrap();
    assert_eq!(data, variant_data("V", KvData::Compound(vec![entry("0", KvData::Int(9))])));
}

#[test]
fn error_messages() {
    assert_eq!(Error::UnexpectedEof.message(), "unexpected EOF");
    assert_eq!(Error::InvalidType(11).message(), "invalid binary keyvalues type 11");
    assert_eq!(Error::Unsupported("map key").message(), "unsupported serde value map key");
}

#[test]
fn value_kind_getters() {
    let values = [
        KvData::String("s".to_owned()),
        KvData::WideString(vec![1]),
        KvData::BinaryString(vec![1]),
        KvData::Int(1),
        KvData::Int64(2),
        KvData::UInt64(3),
        KvData::Float(4.0_f32.to_bits()),
        KvData::Pointer(5),
        KvData::Color(6),
        KvData::Compound(vec![]),
    ];
    for (k, v) in values.iter().enumerate() {
        let kinds = [
            v.is_string(),
            v.is_wide_string(),
            v.is_binary(),
            v.is_int(),
            v.is_int64(),
            v.is_uint64(),
            v.is_float(),
            v.is_pointer(),
            v.is_color(),
            v.is_compound(),
        ];
        for (j, is) in kinds.iter().enumerate() {
            assert_eq!(*is, j == k);
        }
    }
    assert_eq!(values[3].as_int(), Some(1));
    assert_eq!(values[4].as_int(), None);
    assert_eq!(values[5].as_uint64(), Some(3));
    assert_eq!(values[8].as_color(), Some(6));
    assert_eq!(values[8].as_pointer(), None);
}

#[test]
fn hex_values_need_sixteen_hex_digits() {
    let read = |raw: &str| text::from_str(&format!("\"k\" \"{raw}\"")).unwrap().data;
    assert_eq!(read("0x000000000000002A"), KvData::UInt64(42));
    assert_eq!(read("0xFFFFFFFFFFFFFFFF"), KvData::UInt64(u64::MAX));
    assert_eq!(read("0x+000000000000002"), KvData::String("0x+000000000000002".to_owned()));
    assert_eq!(read("0x-000000000000002"), KvData::String("0x-000000000000002".to_owned()));
    assert_eq!(read("0X000000000000002A"), KvData::String("0X000000000000002A".to_owned()));
    assert_eq!(read("0x00000000000002A"), KvData::String("0x00000000000002A".to_owned()));
    assert_eq!(read("0x00000000000000G1"), KvData::String("0x00000000000000G1".to_owned()));
}

#[test]
fn text_reader_stops_at_the_end_after_an_unterminated_quote() {
    let mut p = text::Parser::new("\"a\" \"b");
    assert_eq!(p.parse(), Err(Error::UnexpectedEof));
    assert_eq!(p.parse(), Err(Error::UnexpectedToken));
    let mut q = text::Parser::with_escape_sequences("\"a\" \"b\\");
    assert_eq!(q.parse(), Err(Error::UnexpectedEof));
    assert_eq!(q.parse(), Err(Error::UnexpectedToken));
}

#[test]
fn text_reader_reads_entries_one_after_another() {
    let mut p = text::Parser::new("\"a\" \"1\"\n\"b\" { \"c\" \"x\" }\n");
    assert_eq!(p.parse(), Ok(entry("a", KvData::Int(1))));
    assert_eq!(
        p.parse(),
        Ok(entry("b", KvData::Compound(vec![entry("c", KvData::String("x".to_owned()))])))
    );
    assert_eq!(p.parse(), Err(Error::UnexpectedToken));
}

#[test]
fn binary_reads_take_one_encoding_each() {
    let mut bytes = binary::to_vec("a", &KvData::Int(1)).unwrap();
    let second = binary::to_vec("b", &KvData::String("x".to_owned())).unwrap();
    bytes.extend_from_slice(&second);
    let mut p = binary::Parser::new(&bytes);
    assert_eq!(p.parse(), Ok(Some(entry("a", KvData::Int(1)))));
    assert_eq!(p.parse(), Ok(Some(entry("b", KvData::String("x".to_owned())))));
    assert_eq!(p.parse(), Err(Error::UnexpectedEof));
}

#[test]
fn binary_reader_resumes_past_a_bad_tag() {
    let mut bytes = vec![0xAA];
    bytes.extend_from_slice(&binary::to_vec("a", &KvData::Int(1)).unwrap());
    let mut p = binary::Parser::new(&bytes);
    assert_eq!(p.parse(), Err(Error::InvalidType(0xAA)));
    assert_eq!(p.parse(), Ok(Some(entry("a", KvData::Int(1)))));
}

#[test]
fn binary_reader_after_a_cut_wide_string_resumes_past_its_length() {
    // A wide string entry "w" announcing 3 words but holding only 1, followed by an end byte.
    let bytes = [5, b'w', 0, 3, 0, b'h', 0];
    let mut p = binary::Parser::new(&bytes);
    assert_eq!(p.parse(), Err(Error::UnexpectedEof));
    // The read goes on after the two length bytes: 'h' is not a tag.
    assert_eq!(p.parse(), Err(Error::InvalidType(b'h')));
}

#[test]
fn binary_reader_keeps_its_place_on_an_unterminated_name() {
    let bytes = [1, b'k', b'e', b'y'];
    let mut p = binary::Parser::new(&bytes);
    assert_eq!(p.parse(), Err(Error::UnterminatedCString));
    // Past the tag, the same name is read again.
    assert_eq!(p.parse(), Err(Error::InvalidType(b'k')));
}

#[test]
fn binary_writer_accepts_what_it_can_write() {
    for d in [Dialect::Vdf, Dialect::Source] {
        let data = KvData::Compound(vec![
            entry("w", KvData::WideString(vec![0xffff; 3])),
            entry("p", KvData::Pointer(u32::MAX as usize)),
            entry("s", KvData::String("no nul here".to_owned())),
        ]);
        let bytes = binary::to_vec_dialect("root", &data, d).unwrap();
        let mut p = binary::Parser::new(&bytes).dialect(d);
        assert_eq!(p.parse(), Ok(Some(entry("root", data))));
        assert_eq!(p.parse(), Err(Error::UnexpectedEof));
    }
}

#[test]
fn changing_options_keeps_a_token_already_read() {
    let mut p = text::Parser::new("\"a\" \"1\"\n\"b\\\"c\" \"x\"");
    assert_eq!(p.parse(), Ok(entry("a", KvData::Int(1))));
    // The next name was already read without escapes, as `b\`; it is kept as read.
    let mut p = p.escape_sequences(true);
    assert_eq!(p.parse(), Ok(entry("b\\", KvData::String("c".to_owned()))));
    assert_eq!(p.parse(), Err(Error::UnexpectedEof));
}

#[test]
fn changing_options_before_reading_applies_to_every_token() {
    let mut p = text::Parser::new("\"b\\\"c\" \"x\"").escape_sequences(true);
    assert_eq!(p.parse(), Ok(entry("b\"c", KvData::String("x".to_owned()))));
}

#[test]
fn binary_read_takes_any_complete_encoding() {
    // A Source int written with the full four-byte int tag, not the writer's byte tag.
    let bytes = [2, b'a', 0, 5, 0, 0, 0, 9, b'b', 0];
    let mut p = binary::Parser::new(&bytes).dialect(Dialect::Source);
    assert_eq!(p.parse(), Ok(Some(entry("a", KvData::Int(5)))));
    assert_eq!(p.parse(), Ok(Some(entry("b", KvData::Int(0)))));
    assert_eq!(p.parse(), Err(Error::UnexpectedEof));
}

#[test]
fn value_text_reads_as_one_char() {
    assert_eq!(kva::de::char_of_text("x"), Ok('x'));
    assert_eq!(kva::de::char_of_text("é"), Ok('é'));
    assert_eq!(
        kva::de::char_of_text(""),
        Err(Error::Message("expected char, found empty string".to_owned()))
    );
    assert_eq!(kva::de::char_of_text("1.5"), Err(Error::Message("expected one character".to_owned())));
}
