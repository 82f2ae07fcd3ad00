use vstd::prelude::*;
use crate::error::{Error, ErrorModel};
use crate::number::{self, decimal, digit_value, parse_i64_spec, parse_u64_spec, signed_decimal};
use crate::strings;
use crate::text::write::{decode_utf16, decode_utf16_words};
use crate::types::{DataModel, EntryModel, KvData, KvEntry, entries_model, float_bits_to_i64, float_bits_to_u64, float_to_int};
use crate::ser::{bool_value, i64_value, u64_value};
use crate::text::parser::{hex_u64_model, value_model};
use crate::text::roundtrip::read_back;

verus! {

/// The `Debug` text of a string (`format!("{:?}", s)`): in quotes, with escapes.
pub uninterp spec fn debug_text(s: Seq<char>) -> Seq<char>;

/// Formats a string with `Debug` (`format!("{:?}")`), which quotes and escapes it. The
/// contract names the result `debug_text`; how characters are escaped is left unstated.
#[verifier::external_body]
fn debug_quoted(s: &str) -> (r: String)
    ensures
        r@ == debug_text(s@),
{
    format!("{:?}", s)
}

/// An error whose message is `prefix` followed by the `Debug` text of `value`.
fn message_about(prefix: &str, value: &str) -> (e: Error)
    ensures
        e@ == ErrorModel::Message(prefix@ + debug_text(value@)),
{
    let mut m = String::from_str(prefix);
    let q = debug_quoted(value);
    m.append(q.as_str());
    Error::Message(m)
}

/// An error with a fixed message.
fn message(text: &str) -> (e: Error)
    ensures
        e@ == ErrorModel::Message(text@),
{
    Error::Message(String::from_str(text))
}

/// The text that a value reads as where text is wanted (floats excepted: their text is
/// their `Display`).
pub open spec fn string_value_model(d: DataModel) -> Result<Seq<char>, ErrorModel> {
    match d {
        DataModel::Str(s) => Ok(s),
        DataModel::Wide(w) => match decode_utf16(w) {
            Some(s) => Ok(s),
            None => Err(ErrorModel::InvalidUtf16),
        },
        DataModel::Int(v) => Ok(signed_decimal(v as int)),
        DataModel::Int64(v) => Ok(signed_decimal(v as int)),
        DataModel::UInt64(v) => Ok(decimal(v as nat)),
        DataModel::Pointer(v) => Ok(decimal(v as nat)),
        DataModel::Color(v) => Ok(decimal(v as nat)),
        _ => Err(ErrorModel::UnexpectedToken),
    }
}

/// The texts that read as `true`, and those that read as `false`.
pub open spec fn bool_text(s: Seq<char>) -> Option<bool> {
    if s == "1"@ || s == "true"@ || s == "True"@ || s == "TRUE"@ {
        Some(true)
    } else if s == "0"@ || s == "false"@ || s == "False"@ || s == "FALSE"@ || s.len() == 0 {
        Some(false)
    } else {
        None
    }
}

/// A value read as a `bool`: texts by `bool_text`, numbers by being non-zero (a float
/// is zero when all its bits but the sign are).
pub open spec fn bool_model(d: DataModel) -> Result<bool, ErrorModel> {
    match d {
        DataModel::Str(s) => match bool_text(s) {
            Some(b) => Ok(b),
            None => Err(ErrorModel::Message("invalid bool value "@ + debug_text(s))),
        },
        DataModel::Int(v) => Ok(v != 0),
        DataModel::Int64(v) => Ok(v != 0),
        DataModel::UInt64(v) => Ok(v != 0),
        DataModel::Float(b) => Ok(b % 0x8000_0000 != 0),
        _ => Err(ErrorModel::UnexpectedToken),
    }
}

/// A text read as an `i64` (`str::parse`).
pub open spec fn i64_text_model(s: Seq<char>) -> Result<i64, ErrorModel> {
    match parse_i64_spec(s) {
        Some(v) => Ok(v),
        None => Err(ErrorModel::Message("invalid integer value "@ + debug_text(s))),
    }
}

/// A text read as a `u64`: after `0x` or `0X` in hexadecimal, else in decimal.
pub open spec fn u64_text_model(s: Seq<char>) -> Result<u64, ErrorModel> {
    if s.len() >= 2 && s[0] == '0' && (s[1] == 'x' || s[1] == 'X') {
        let rest = s.subrange(2, s.len() as int);
        match parse_u64_spec(rest, 16) {
            Some(v) => Ok(v),
            None => Err(ErrorModel::Message("invalid unsigned integer value "@ + debug_text(rest))),
        }
    } else {
        match parse_u64_spec(s, 10) {
            Some(v) => Ok(v),
            None => Err(ErrorModel::Message("invalid unsigned integer value "@ + debug_text(s))),
        }
    }
}

/// A value read as an `i64`.
pub open spec fn i64_model(d: DataModel) -> Result<i64, ErrorModel> {
    match d {
        DataModel::Str(s) => i64_text_model(s),
        DataModel::Int(v) => Ok(v as i64),
        DataModel::Int64(v) => Ok(v),
        DataModel::UInt64(v) => if v <= i64::MAX {
            Ok(v as i64)
        } else {
            Err(ErrorModel::Message("u64 does not fit in i64"@))
        },
        DataModel::Float(b) => Ok(float_to_int(b, i64::MIN as int, i64::MAX as int) as i64),
        DataModel::Pointer(v) => if v <= i64::MAX {
            Ok(v as i64)
        } else {
            Err(ErrorModel::Message("usize does not fit in i64"@))
        },
        DataModel::Color(v) => Ok(v as i64),
        _ => Err(ErrorModel::UnexpectedToken),
    }
}

/// A value read as a `u64`.
pub open spec fn u64_model(d: DataModel) -> Result<u64, ErrorModel> {
    match d {
        DataModel::Str(s) => u64_text_model(s),
        DataModel::Int(v) => if v >= 0 {
            Ok(v as u64)
        } else {
            Err(ErrorModel::Message("negative integer does not fit in u64"@))
        },
        DataModel::Int64(v) => if v >= 0 {
            Ok(v as u64)
        } else {
            Err(ErrorModel::Message("negative integer does not fit in u64"@))
        },
        DataModel::UInt64(v) => Ok(v),
        DataModel::Float(b) => Ok(float_to_int(b, 0, u64::MAX as int) as u64),
        DataModel::Pointer(v) => Ok(v as u64),
        DataModel::Color(v) => Ok(v as u64),
        _ => Err(ErrorModel::UnexpectedToken),
    }
}

/// A read `i64` narrowed to `[lo, hi]`; out of range, the error is `msg`.
pub open spec fn narrow_signed(r: Result<i64, ErrorModel>, lo: int, hi: int, msg: Seq<char>) -> Result<i64, ErrorModel> {
    match r {
        Ok(v) => if lo <= v <= hi {
            Ok(v)
        } else {
            Err(ErrorModel::Message(msg))
        },
        Err(e) => Err(e),
    }
}

/// A read `u64` narrowed to `[0, hi]`; out of range, the error is `msg`.
pub open spec fn narrow_unsigned(r: Result<u64, ErrorModel>, hi: int, msg: Seq<char>) -> Result<u64, ErrorModel> {
    match r {
        Ok(v) => if v <= hi {
            Ok(v)
        } else {
            Err(ErrorModel::Message(msg))
        },
        Err(e) => Err(e),
    }
}

/// Whether two strings hold the same text.
fn is_text(s: &String, lit: &str) -> (r: bool)
    ensures
        r == (s@ == lit@),
{
    strings::same_text(s, &String::from_str(lit))
}

/// `str::parse::<i64>` with this library's error.
pub fn parse_i64(value: &str) -> (r: Result<i64, Error>)
    ensures
        match i64_text_model(value@) {
            Ok(v) => r == Ok::<i64, Error>(v),
            Err(e) => r matches Err(x) && x@ == e,
        },
{
    let chars = strings::chars_of(value);
    match number::parse_i64(&chars) {
        Some(v) => Ok(v),
        None => Err(message_about("invalid integer value ", value)),
    }
}

/// A `u64` from text: hexadecimal after `0x` or `0X`, else decimal.
pub fn parse_u64(value: &str) -> (r: Result<u64, Error>)
    ensures
        match u64_text_model(value@) {
            Ok(v) => r == Ok::<u64, Error>(v),
            Err(e) => r matches Err(x) && x@ == e,
        },
{
    let chars = strings::chars_of(value);
    if chars.len() >= 2 && chars[0] == '0' && (chars[1] == 'x' || chars[1] == 'X') {
        let rest = strings::string_from_chars(&chars, 2, chars.len());
        let rest_chars = strings::chars_of(rest.as_str());
        match number::parse_u64_radix(&rest_chars, 16) {
            Some(v) => Ok(v),
            None => Err(message_about("invalid unsigned integer value ", rest.as_str())),
        }
    } else {
        match number::parse_u64_radix(&chars, 10) {
            Some(v) => Ok(v),
            None => Err(message_about("invalid unsigned integer value ", value)),
        }
    }
}

/// A map key read as a signed integer in `[lo, hi]` (`str::parse` of an integer type
/// with that range).
pub fn parse_key_int(value: &str, lo: i64, hi: i64) -> (r: Result<i64, Error>)
    ensures
        match parse_i64_spec(value@) {
            Some(v) if lo <= v <= hi => r == Ok::<i64, Error>(v),
            _ => r matches Err(x) && x@ == ErrorModel::Message("invalid map key "@ + debug_text(value@)),
        },
{
    let chars = strings::chars_of(value);
    match number::parse_i64(&chars) {
        Some(v) => {
            if lo <= v && v <= hi {
                Ok(v)
            } else {
                Err(message_about("invalid map key ", value))
            }
        },
        None => Err(message_about("invalid map key ", value)),
    }
}

/// A map key read as an unsigned integer at most `hi` (`str::parse` of an unsigned
/// integer type with that range).
pub fn parse_key_uint(value: &str, hi: u64) -> (r: Result<u64, Error>)
    ensures
        match parse_u64_spec(value@, 10) {
            Some(v) if v <= hi => r == Ok::<u64, Error>(v),
            _ => r matches Err(x) && x@ == ErrorModel::Message("invalid map key "@ + debug_text(value@)),
        },
{
    let chars = strings::chars_of(value);
    match number::parse_u64_radix(&chars, 10) {
        Some(v) => {
            if v <= hi {
                Ok(v)
            } else {
                Err(message_about("invalid map key ", value))
            }
        },
        None => Err(message_about("invalid map key ", value)),
    }
}

/// A map key read as a `bool`: `true` or `1`, `false`, `0` or nothing.
pub fn key_bool(key: &str) -> (r: Result<bool, Error>)
    ensures
        if key@ == "true"@ || key@ == "1"@ {
            r == Ok::<bool, Error>(true)
        } else if key@ == "false"@ || key@ == "0"@ || key@.len() == 0 {
            r == Ok::<bool, Error>(false)
        } else {
            r matches Err(x) && x@ == ErrorModel::Message("invalid bool key "@ + debug_text(key@))
        },
{
    let k = String::from_str(key);
    assert(k@ == key@);
    if is_text(&k, "true") || is_text(&k, "1") {
        assert(key@ == "true"@ || key@ == "1"@);
        Ok(true)
    } else if is_text(&k, "false") || is_text(&k, "0") || is_text(&k, "") {
        proof {
            reveal_strlit("");
                assert(""@ =~= Seq::<char>::empty());
        }
        Ok(false)
    } else {
        proof {
            reveal_strlit("");
                assert(""@ =~= Seq::<char>::empty());
        }
        assert(key@.len() != 0) by {
            if key@.len() == 0 {
                assert(key@ =~= ""@);
            }
        }
        Err(message_about("invalid bool key ", key))
    }
}

/// A map key read as a `char`: it must be exactly one character.
pub fn key_char(key: &str) -> (r: Result<char, Error>)
    ensures
        if key@.len() == 0 {
            r matches Err(x) && x@ == ErrorModel::Message("expected char key"@)
        } else if key@.len() > 1 {
            r matches Err(x) && x@ == ErrorModel::Message("expected one-character key"@)
        } else {
            r == Ok::<char, Error>(key@[0])
        },
{
    let chars = strings::chars_of(key);
    if chars.len() == 0 {
        Err(message("expected char key"))
    } else if chars.len() > 1 {
        Err(message("expected one-character key"))
    } else {
        Ok(chars[0])
    }
}

/// The character a value's text stands for: it must be exactly one character.
pub open spec fn char_text_model(s: Seq<char>) -> Result<char, ErrorModel> {
    if s.len() == 0 {
        Err(ErrorModel::Message("expected char, found empty string"@))
    } else if s.len() > 1 {
        Err(ErrorModel::Message("expected one character"@))
    } else {
        Ok(s[0])
    }
}

/// A value's text read as a `char` (for a float, its text is the caller's).
pub fn char_of_text(value: &str) -> (r: Result<char, Error>)
    ensures
        match char_text_model(value@) {
            Ok(c) => r == Ok::<char, Error>(c),
            Err(e) => r matches Err(x) && x@ == e,
        },
{
    let chars = strings::chars_of(value);
    if chars.len() == 0 {
        Err(message("expected char, found empty string"))
    } else if chars.len() > 1 {
        Err(message("expected one character"))
    } else {
        Ok(chars[0])
    }
}

/// Reads one value the way the serde data model asks for it. `human` is whether the
/// format is human readable.
pub struct ValueDeserializer<'a> {
    data: &'a KvData,
    human: bool,
}

impl<'a> ValueDeserializer<'a> {
    /// The value read.
    pub closed spec fn data_of(&self) -> DataModel {
        self.data@
    }

    /// Whether the format is human readable.
    pub closed spec fn human_of(&self) -> bool {
        self.human
    }

    pub fn new(data: &'a KvData, human: bool) -> (d: Self)
        ensures
            d.data_of() == data@,
            d.human_of() == human,
    {
        ValueDeserializer { data, human }
    }

    /// The value read.
    pub fn data(&self) -> (r: &'a KvData)
        ensures
            r@ == self.data_of(),
    {
        self.data
    }

    /// Whether the format is human readable.
    pub fn is_human_readable(&self) -> (r: bool)
        ensures
            r == self.human_of(),
    {
        self.human
    }

    /// Whether a self-describing read gives text: numbers do in a human-readable format,
    /// so that they read alike whether or not the text was read with numeric inference.
    pub fn any_as_text(&self) -> (r: bool)
        ensures
            r == (self.human_of() && (self.data_of() is Int || self.data_of() is Int64
                || self.data_of() is UInt64 || self.data_of() is Float || self.data_of() is Pointer
                || self.data_of() is Color)),
    {
        self.human && match self.data {
            KvData::Int(_) | KvData::Int64(_) | KvData::UInt64(_) | KvData::Float(_) | KvData::Pointer(_)
            | KvData::Color(_) => true,
            _ => false,
        }
    }

    /// The value as text. A float's text is its `Display`, which is not this library's.
    pub fn string_value(&self) -> (r: Result<String, Error>)
        requires
            !(self.data_of() is Float),
        ensures
            match string_value_model(self.data_of()) {
                Ok(s) => r matches Ok(x) && x@ == s,
                Err(e) => r matches Err(x) && x@ == e,
            },
    {
        match self.data {
            KvData::String(s) => Ok(s.clone()),
            KvData::WideString(w) => match decode_utf16_words(w) {
                Some(chars) => {
                    let mut s = String::new();
                    strings::push_chars(&mut s, &chars);
                    assert(s@ =~= chars@);
                    Ok(s)
                },
                None => Err(Error::InvalidUtf16),
            },
            KvData::Int(v) => Ok(number::format_i64(*v as i64)),
            KvData::Int64(v) => Ok(number::format_i64(*v)),
            KvData::UInt64(v) => Ok(number::format_u64(*v)),
            KvData::Pointer(v) => Ok(number::format_u64(*v as u64)),
            KvData::Color(v) => Ok(number::format_u64(*v as u64)),
            _ => Err(Error::UnexpectedToken),
        }
    }

    /// The value as a `bool`.
    pub fn parse_bool(&self) -> (r: Result<bool, Error>)
        ensures
            match bool_model(self.data_of()) {
                Ok(b) => r == Ok::<bool, Error>(b),
                Err(e) => r matches Err(x) && x@ == e,
            },
    {
        match self.data {
            KvData::String(s) => {
                if is_text(s, "1") || is_text(s, "true") || is_text(s, "True") || is_text(s, "TRUE") {
                    Ok(true)
                } else if is_text(s, "0") || is_text(s, "false") || is_text(s, "False") || is_text(s, "FALSE")
                    || is_text(s, "") {
                    proof {
                        reveal_strlit("");
                assert(""@ =~= Seq::<char>::empty());
                    }
                    Ok(false)
                } else {
                    proof {
                        reveal_strlit("");
                assert(""@ =~= Seq::<char>::empty());
                    }
                    assert(s@.len() != 0) by {
                        if s@.len() == 0 {
                            assert(s@ =~= ""@);
                        }
                    }
                    Err(message_about("invalid bool value ", s.as_str()))
                }
            },
            KvData::Int(v) => Ok(*v != 0),
            KvData::Int64(v) => Ok(*v != 0),
            KvData::UInt64(v) => Ok(*v != 0),
            KvData::Float(b) => Ok(*b % 0x8000_0000 != 0),
            _ => Err(Error::UnexpectedToken),
        }
    }

    /// The value as an `i64`.
    pub fn parse_i64(&self) -> (r: Result<i64, Error>)
        ensures
            match i64_model(self.data_of()) {
                Ok(v) => r == Ok::<i64, Error>(v),
                Err(e) => r matches Err(x) && x@ == e,
            },
    {
        match self.data {
            KvData::String(s) => parse_i64(s.as_str()),
            KvData::Int(v) => Ok(*v as i64),
            KvData::Int64(v) => Ok(*v),
            KvData::UInt64(v) => {
                if *v <= i64::MAX as u64 {
                    Ok(*v as i64)
                } else {
                    Err(message("u64 does not fit in i64"))
                }
            },
            KvData::Float(b) => Ok(float_bits_to_i64(*b)),
            KvData::Pointer(v) => {
                if *v as u64 <= i64::MAX as u64 {
                    Ok(*v as i64)
                } else {
                    Err(message("usize does not fit in i64"))
                }
            },
            KvData::Color(v) => Ok(*v as i64),
            _ => Err(Error::UnexpectedToken),
        }
    }

    /// The value as a `u64`.
    pub fn parse_u64(&self) -> (r: Result<u64, Error>)
        ensures
            match u64_model(self.data_of()) {
                Ok(v) => r == Ok::<u64, Error>(v),
                Err(e) => r matches Err(x) && x@ == e,
            },
    {
        match self.data {
            KvData::String(s) => parse_u64(s.as_str()),
            KvData::Int(v) => {
                if *v >= 0 {
                    Ok(*v as u64)
                } else {
                    Err(message("negative integer does not fit in u64"))
                }
            },
            KvData::Int64(v) => {
                if *v >= 0 {
                    Ok(*v as u64)
                } else {
                    Err(message("negative integer does not fit in u64"))
                }
            },
            KvData::UInt64(v) => Ok(*v),
            KvData::Float(b) => Ok(float_bits_to_u64(*b)),
            KvData::Pointer(v) => Ok(*v as u64),
            KvData::Color(v) => Ok(*v as u64),
            _ => Err(Error::UnexpectedToken),
        }
    }

    /// The value as an `i8`.
    pub fn deserialize_i8(&self) -> (r: Result<i8, Error>)
        ensures
            match narrow_signed(i64_model(self.data_of()), i8::MIN as int, i8::MAX as int, "integer does not fit in i8"@) {
                Ok(v) => r == Ok::<i8, Error>(v as i8),
                Err(e) => r matches Err(x) && x@ == e,
            },
    {
        let v = match self.parse_i64() {
            Ok(v) => v,
            Err(e) => {
                return Err(e);
            },
        };
        if i8::MIN as i64 <= v && v <= i8::MAX as i64 {
            Ok(v as i8)
        } else {
            Err(message("integer does not fit in i8"))
        }
    }

    /// The value as an `i16`.
    pub fn deserialize_i16(&self) -> (r: Result<i16, Error>)
        ensures
            match narrow_signed(i64_model(self.data_of()), i16::MIN as int, i16::MAX as int, "integer does not fit in i16"@) {
                Ok(v) => r == Ok::<i16, Error>(v as i16),
                Err(e) => r matches Err(x) && x@ == e,
            },
    {
        let v = match self.parse_i64() {
            Ok(v) => v,
            Err(e) => {
                return Err(e);
            },
        };
        if i16::MIN as i64 <= v && v <= i16::MAX as i64 {
            Ok(v as i16)
        } else {
            Err(message("integer does not fit in i16"))
        }
    }

    /// The value as an `i32`.
    pub fn deserialize_i32(&self) -> (r: Result<i32, Error>)
        ensures
            match narrow_signed(i64_model(self.data_of()), i32::MIN as int, i32::MAX as int, "integer does not fit in i32"@) {
                Ok(v) => r == Ok::<i32, Error>(v as i32),
                Err(e) => r matches Err(x) && x@ == e,
            },
    {
        let v = match self.parse_i64() {
            Ok(v) => v,
            Err(e) => {
                return Err(e);
            },
        };
        if i32::MIN as i64 <= v && v <= i32::MAX as i64 {
            Ok(v as i32)
        } else {
            Err(message("integer does not fit in i32"))
        }
    }

    /// The value as a `u8`.
    pub fn deserialize_u8(&self) -> (r: Result<u8, Error>)
        ensures
            match narrow_unsigned(u64_model(self.data_of()), u8::MAX as int, "integer does not fit in u8"@) {
                Ok(v) => r == Ok::<u8, Error>(v as u8),
                Err(e) => r matches Err(x) && x@ == e,
            },
    {
        let v = match self.parse_u64() {
            Ok(v) => v,
            Err(e) => {
                return Err(e);
            },
        };
        if v <= u8::MAX as u64 {
            Ok(v as u8)
        } else {
            Err(message("integer does not fit in u8"))
        }
    }

    /// The value as a `u16`.
    pub fn deserialize_u16(&self) -> (r: Result<u16, Error>)
        ensures
            match narrow_unsigned(u64_model(self.data_of()), u16::MAX as int, "integer does not fit in u16"@) {
                Ok(v) => r == Ok::<u16, Error>(v as u16),
                Err(e) => r matches Err(x) && x@ == e,
            },
    {
        let v = match self.parse_u64() {
            Ok(v) => v,
            Err(e) => {
                return Err(e);
            },
        };
        if v <= u16::MAX as u64 {
            Ok(v as u16)
        } else {
            Err(message("integer does not fit in u16"))
        }
    }

    /// The value as a `u32`.
    pub fn deserialize_u32(&self) -> (r: Result<u32, Error>)
        ensures
            match narrow_unsigned(u64_model(self.data_of()), u32::MAX as int, "integer does not fit in u32"@) {
                Ok(v) => r == Ok::<u32, Error>(v as u32),
                Err(e) => r matches Err(x) && x@ == e,
            },
    {
        let v = match self.parse_u64() {
            Ok(v) => v,
            Err(e) => {
                return Err(e);
            },
        };
        if v <= u32::MAX as u64 {
            Ok(v as u32)
        } else {
            Err(message("integer does not fit in u32"))
        }
    }

    /// The value as a `char`: its text must be exactly one character.
    pub fn deserialize_char(&self) -> (r: Result<char, Error>)
        requires
            !(self.data_of() is Float),
        ensures
            match string_value_model(self.data_of()) {
                Ok(s) => match char_text_model(s) {
                    Ok(c) => r == Ok::<char, Error>(c),
                    Err(e) => r matches Err(x) && x@ == e,
                },
                Err(e) => r matches Err(x) && x@ == e,
            },
    {
        let value = self.string_value()?;
        char_of_text(value.as_str())
    }

    /// The value as bytes: a binary string's, or a string's UTF-8 encoding.
    pub fn deserialize_bytes(&self) -> (r: Result<Vec<u8>, Error>)
        ensures
            match self.data_of() {
                DataModel::Bytes(b) => r matches Ok(x) && x@ == b,
                DataModel::Str(s) => r matches Ok(x) && x@ == vstd::utf8::encode_utf8(s),
                _ => r matches Err(x) && x@ == ErrorModel::UnexpectedToken,
            },
    {
        match self.data {
            KvData::BinaryString(b) => {
                let mut v: Vec<u8> = Vec::new();
                let mut i: usize = 0;
                while i < b.len()
                    invariant
                        i <= b@.len(),
                        v@ == b@.take(i as int),
                    decreases b@.len() - i,
                {
                    v.push(b[i]);
                    assert(b@.take(i + 1) =~= b@.take(i as int).push(b@[i as int]));
                    i += 1;
                }
                assert(b@.take(b@.len() as int) =~= b@);
                Ok(v)
            },
            KvData::String(s) => Ok(strings::utf8_bytes(s)),
            _ => Err(Error::UnexpectedToken),
        }
    }

    /// Whether the value stands for a missing option: an empty string.
    pub fn is_none(&self) -> (r: bool)
        ensures
            r == (self.data_of() == DataModel::Str(Seq::empty())),
    {
        match self.data {
            KvData::String(s) => {
                proof {
                    reveal_strlit("");
                assert(""@ =~= Seq::<char>::empty());
                }
                if is_text(s, "") {
                    true
                } else {
                    assert(s@ != Seq::<char>::empty());
                    false
                }
            },
            _ => false,
        }
    }

    /// The value read as a unit: an empty string or an empty compound.
    pub fn deserialize_unit(&self) -> (r: Result<(), Error>)
        ensures
            if self.data_of() == DataModel::Str(Seq::empty())
                || self.data_of() == DataModel::Compound(Seq::empty()) {
                r is Ok
            } else {
                r matches Err(x) && x@ == ErrorModel::UnexpectedToken
            },
    {
        if self.is_none() {
            return Ok(());
        }
        match self.data {
            KvData::Compound(es) => {
                if es.len() == 0 {
                    assert(self.data_of() == DataModel::Compound(Seq::empty())) by {
                        assert(self.data_of()->Compound_0 =~= Seq::<EntryModel>::empty());
                    }
                    Ok(())
                } else {
                    assert(self.data_of()->Compound_0.len() > 0);
                    Err(Error::UnexpectedToken)
                }
            },
            _ => Err(Error::UnexpectedToken),
        }
    }

    /// The variant an enum value names and what it holds: a string names a variant with
    /// nothing in it; a compound of one entry names the entry's variant, holding its value.
    pub fn deserialize_enum(&self) -> (r: Result<(&'a String, Option<&'a KvData>), Error>)
        ensures
            match self.data_of() {
                DataModel::Str(s) => r matches Ok((v, c)) && v@ == s && c is None,
                DataModel::Compound(es) => if es.len() == 1 {
                    r matches Ok((v, Some(c))) && v@ == es[0].name && c@ == es[0].data
                } else {
                    r matches Err(x) && x@ == ErrorModel::UnexpectedToken
                },
                _ => r matches Err(x) && x@ == ErrorModel::UnexpectedToken,
            },
    {
        match self.data {
            KvData::String(s) => Ok((s, None)),
            KvData::Compound(es) => {
                proof {
                    crate::types::lemma_compound_model(*es);
                }
                if es.len() == 1 {
                    let e = &es[0];
                    assert(entries_model(es@)[0] == es@[0]@);
                    Ok((&e.name, Some(&e.data)))
                } else {
                    Err(Error::UnexpectedToken)
                }
            },
            _ => Err(Error::UnexpectedToken),
        }
    }
}

/// A unit variant's content: nothing, an empty string or an empty compound.
pub fn unit_variant(value: Option<&KvData>) -> (r: Result<(), Error>)
    ensures
        match value {
            None => r is Ok,
            Some(d) => if d@ == DataModel::Str(Seq::empty()) || d@ == DataModel::Compound(Seq::empty()) {
                r is Ok
            } else {
                r matches Err(x) && x@ == ErrorModel::UnexpectedToken
            },
        },
{
    match value {
        None => Ok(()),
        Some(d) => ValueDeserializer::new(d, false).deserialize_unit(),
    }
}

/// The content of a newtype, tuple or struct variant; with none, an error.
pub fn variant_value<'a>(value: Option<&'a KvData>) -> (r: Result<&'a KvData, Error>)
    ensures
        match value {
            Some(d) => r == Ok::<&KvData, Error>(d),
            None => r matches Err(x) && x@ == ErrorModel::Message("missing enum value"@),
        },
{
    match value {
        Some(d) => Ok(d),
        None => Err(message("missing enum value")),
    }
}

/// Reads the entries of a compound as a map: each entry's name as a key, then its value.
pub struct MapReader<'a> {
    entries: &'a [KvEntry],
    pos: usize,
    value: Option<&'a KvData>,
}

impl<'a> MapReader<'a> {
    /// The entries read.
    pub closed spec fn entries_of(&self) -> Seq<EntryModel> {
        entries_model(self.entries@)
    }

    /// How many keys have been handed out.
    pub closed spec fn position(&self) -> nat {
        self.pos as nat
    }

    /// The value of the last key handed out, until it is taken.
    pub closed spec fn pending(&self) -> Option<DataModel> {
        match self.value {
            Some(d) => Some(d@),
            None => None,
        }
    }

    #[verifier::type_invariant]
    spec fn wf(&self) -> bool {
        self.pos <= self.entries@.len()
    }

    pub fn new(entries: &'a [KvEntry]) -> (m: Self)
        ensures
            m.entries_of() == entries_model(entries@),
            m.position() == 0,
            m.pending() is None,
    {
        MapReader { entries, pos: 0, value: None }
    }

    /// The next entry's name, making its value the pending one; `None` after the last.
    pub fn next_key(&mut self) -> (r: Option<&'a String>)
        ensures
            final(self).entries_of() == old(self).entries_of(),
            old(self).position() < old(self).entries_of().len() ==> (r matches Some(k)
                && k@ == old(self).entries_of()[old(self).position() as int].name
                && final(self).position() == old(self).position() + 1
                && final(self).pending() == Some(old(self).entries_of()[old(self).position() as int].data)),
            old(self).position() >= old(self).entries_of().len() ==> (r is None && final(self).position()
                == old(self).position() && final(self).pending() == old(self).pending()),
    {
        proof {
            use_type_invariant(&*self);
        }
        if self.pos < self.entries.len() {
            let e = &self.entries[self.pos];
            assert(entries_model(self.entries@)[self.pos as int] == self.entries@[self.pos as int]@);
            self.value = Some(&e.data);
            self.pos = self.pos + 1;
            Some(&e.name)
        } else {
            None
        }
    }

    /// Takes the pending value; with none pending, an error.
    pub fn next_value(&mut self) -> (r: Result<&'a KvData, Error>)
        ensures
            final(self).entries_of() == old(self).entries_of(),
            final(self).position() == old(self).position(),
            final(self).pending() is None,
            match old(self).pending() {
                Some(d) => r matches Ok(x) && x@ == d,
                None => r matches Err(x) && x@ == ErrorModel::Message("missing map value"@),
            },
    {
        proof {
            use_type_invariant(&*self);
        }
        let v = self.value;
        self.value = None;
        match v {
            Some(d) => Ok(d),
            None => Err(message("missing map value")),
        }
    }
}

/// Reads the values of a compound's entries in order, as a sequence.
pub struct SeqReader<'a> {
    entries: &'a [KvEntry],
    pos: usize,
}

impl<'a> SeqReader<'a> {
    /// The entries read.
    pub closed spec fn entries_of(&self) -> Seq<EntryModel> {
        entries_model(self.entries@)
    }

    /// How many values have been handed out.
    pub closed spec fn position(&self) -> nat {
        self.pos as nat
    }

    #[verifier::type_invariant]
    spec fn wf(&self) -> bool {
        self.pos <= self.entries@.len()
    }

    pub fn new(entries: &'a [KvEntry]) -> (m: Self)
        ensures
            m.entries_of() == entries_model(entries@),
            m.position() == 0,
    {
        SeqReader { entries, pos: 0 }
    }

    /// The next entry's value; `None` after the last.
    pub fn next_element(&mut self) -> (r: Option<&'a KvData>)
        ensures
            final(self).entries_of() == old(self).entries_of(),
            old(self).position() < old(self).entries_of().len() ==> (r matches Some(d)
                && d@ == old(self).entries_of()[old(self).position() as int].data
                && final(self).position() == old(self).position() + 1),
            old(self).position() >= old(self).entries_of().len() ==> (r is None && final(self).position()
                == old(self).position()),
    {
        proof {
            use_type_invariant(&*self);
        }
        if self.pos < self.entries.len() {
            let e = &self.entries[self.pos];
            assert(entries_model(self.entries@)[self.pos as int] == self.entries@[self.pos as int]@);
            self.pos = self.pos + 1;
            Some(&e.data)
        } else {
            None
        }
    }
}

/// What the serializer makes of a `bool`, an `i64`, a `u64` or a string reads back as it.
pub proof fn serialized_values_read_back(b: bool, i: i64, u: u64, s: Seq<char>)
    ensures
        bool_model(bool_value(b)) == Ok::<bool, ErrorModel>(b),
        i64_model(i64_value(i)) == Ok::<i64, ErrorModel>(i),
        u64_model(u64_value(u)) == Ok::<u64, ErrorModel>(u),
        string_value_model(DataModel::Str(s)) == Ok::<Seq<char>, ErrorModel>(s),
{
}

/// Decimal text written for an int does not read as a hexadecimal `u64`.
proof fn lemma_decimal_not_hex(v: int)
    ensures
        hex_u64_model(signed_decimal(v)) is None,
{
    let n: nat = if v < 0 { (-v) as nat } else { v as nat };
    number::lemma_decimal_value(n);
    if v >= 0 && decimal(n).len() >= 2 {
        assert(digit_value(decimal(n)[1], 10) is Some);
    }
}

/// An `i32` written as text reads back as itself, with numeric inference or without.
proof fn lemma_int_text(v: i32, inference: bool)
    ensures
        i64_model(read_back(DataModel::Int(v), inference)) == Ok::<i64, ErrorModel>(v as i64),
        read_back(DataModel::Int(v), inference) == if inference {
            DataModel::Int(v)
        } else {
            DataModel::Str(signed_decimal(v as int))
        },
{
    number::lemma_parse_signed_decimal(v as int);
    lemma_decimal_not_hex(v as int);
    let n: nat = if v < 0 { (-v) as nat } else { v as nat };
    number::lemma_decimal_value(n);
    assert(signed_decimal(v as int).len() > 0);
}

/// A `bool` the serializer wrote as text reads back.
proof fn lemma_bool_text(b: bool, inference: bool)
    ensures
        bool_model(read_back(bool_value(b), inference)) == Ok::<bool, ErrorModel>(b),
{
    lemma_int_text(if b { 1 } else { 0 }, inference);
    reveal_strlit("1");
    reveal_strlit("0");
    reveal_strlit("true");
    reveal_strlit("True");
    reveal_strlit("TRUE");
    assert(decimal(1) =~= "1"@);
    assert(decimal(0) =~= "0"@);
    assert("0"@ != "1"@) by {
        assert("0"@[0] != "1"@[0]);
    }
    assert("0"@ != "true"@ && "0"@ != "True"@ && "0"@ != "TRUE"@) by {
        assert("0"@.len() == 1);
    }
}

/// What the serializer makes of a `bool`, an `i64`, a `u64` or a string, written as text and
/// read back (with numeric inference or without), reads back as it; so do strings read
/// without inference.
pub proof fn serialized_values_read_back_through_text(b: bool, i: i64, u: u64, s: Seq<char>, inference: bool)
    ensures
        bool_model(read_back(bool_value(b), inference)) == Ok::<bool, ErrorModel>(b),
        i64_model(read_back(i64_value(i), inference)) == Ok::<i64, ErrorModel>(i),
        u64_model(read_back(u64_value(u), inference)) == Ok::<u64, ErrorModel>(u),
        string_value_model(read_back(DataModel::Str(s), false)) == Ok::<Seq<char>, ErrorModel>(s),
{
    lemma_bool_text(b, inference);
    // i64
    if i32::MIN <= i <= i32::MAX {
        lemma_int_text(i as i32, inference);
    } else {
        number::lemma_parse_signed_decimal(i as int);
        lemma_decimal_not_hex(i as int);
    }
    // u64
    if u <= i32::MAX {
        lemma_int_text(u as i32, inference);
        number::lemma_parse_decimal(u as nat);
        number::lemma_decimal_value(u as nat);
        if decimal(u as nat).len() >= 2 {
            assert(digit_value(decimal(u as nat)[1], 10) is Some);
            number::lemma_digit_not_sign(decimal(u as nat)[1], 10);
        }
        assert(signed_decimal(u as i32 as int) == decimal(u as nat));
    } else {
        let t = seq!['0', 'x'] + number::hex_digits(u as nat, 16);
        number::lemma_parse_hex(u);
        number::lemma_hex_value(u as nat, 16);
        assert(t.subrange(2, t.len() as int) =~= number::hex_digits(u as nat, 16));
    }
}

/// An `i32` written as text reads as the same text whether it was read with numeric
/// inference (as an int) or without (as a string): a human-readable self-describing read of
/// it does not depend on the option.
pub proof fn written_ints_read_as_text_alike(v: i32)
    ensures
        string_value_model(read_back(DataModel::Int(v), true)) == Ok::<Seq<char>, ErrorModel>(signed_decimal(v as int)),
        string_value_model(read_back(DataModel::Int(v), false)) == Ok::<Seq<char>, ErrorModel>(signed_decimal(v as int)),
{
    lemma_int_text(v, true);
    lemma_int_text(v, false);
}

/// Map keys written by `int_key`, `uint_key` and `bool_key` read back through
/// `parse_key_int`, `parse_key_uint` and `key_bool`.
pub proof fn keys_read_back(i: i64, u: u64, b: bool)
    ensures
        parse_i64_spec(signed_decimal(i as int)) == Some(i),
        parse_u64_spec(decimal(u as nat), 10) == Some(u),
        (if b { "true"@ } else { "false"@ }) == "true"@ <==> b,
        (if b { "true"@ } else { "false"@ }) == "false"@ <==> !b,
{
    number::lemma_parse_signed_decimal(i as int);
    number::lemma_parse_decimal(u as nat);
    reveal_strlit("true");
    reveal_strlit("false");
    assert("true"@ != "false"@) by {
        assert("true"@.len() != "false"@.len());
    }
}


/// Rust's text of a bool (`true`, `false`), capitalised or in capitals, reads back as that
/// bool, and so does its digit (`1`, `0`); the digit reads as the same bool as the number
/// itself, and an empty text reads as `false`.
pub proof fn bool_texts_read_as_bools(b: bool)
    ensures
        bool_model(DataModel::Str(if b { "true"@ } else { "false"@ })) == Ok::<bool, ErrorModel>(b),
        bool_model(DataModel::Str(if b { "True"@ } else { "False"@ })) == Ok::<bool, ErrorModel>(b),
        bool_model(DataModel::Str(if b { "TRUE"@ } else { "FALSE"@ })) == Ok::<bool, ErrorModel>(b),
        bool_model(DataModel::Str(decimal(if b { 1nat } else { 0nat }))) == Ok::<bool, ErrorModel>(b),
        bool_model(DataModel::Str(decimal(if b { 1nat } else { 0nat })))
            == bool_model(DataModel::Int(if b { 1i32 } else { 0i32 })),
        bool_model(DataModel::Str(Seq::empty())) == Ok::<bool, ErrorModel>(false),
{
    reveal_strlit("1");
    reveal_strlit("0");
    reveal_strlit("true");
    reveal_strlit("True");
    reveal_strlit("TRUE");
    reveal_strlit("false");
    reveal_strlit("False");
    reveal_strlit("FALSE");
    assert(decimal(1nat) =~= "1"@);
    assert(decimal(0nat) =~= "0"@);
    assert("True"@[0] != "true"@[0]);
    assert("TRUE"@[1] != "true"@[1] && "TRUE"@[1] != "True"@[1]);
    assert("False"@[0] != "false"@[0]);
    assert("FALSE"@[1] != "false"@[1] && "FALSE"@[1] != "False"@[1]);
    assert(bool_text("True"@) == Some(true));
    assert(bool_text("TRUE"@) == Some(true));
    assert(bool_text("False"@) == Some(false));
    assert(bool_text("FALSE"@) == Some(false));
    assert(bool_text(decimal(1nat)) == Some(true));
    assert("0"@[0] != "1"@[0]);
    assert(bool_text(decimal(0nat)) == Some(false));
}

} // verus!
