use vstd::prelude::*;
use crate::error::{Error, ErrorModel};
use crate::types::{EntryModel, KvData, KvEntry};

pub mod parser;
pub mod write;
pub mod floats;
pub mod roundtrip;

pub use parser::{Options, Parser};
pub use floats::{apply_float_values, float_candidates};
pub use write::float_values;

verus! {

/// The text of one entry named `name` holding `data`. Floats have no text in this
/// library (their `Display` is the caller's), so a value holding one is refused here:
/// it is written with `to_string_with_floats`.
pub fn to_string(name: &str, data: &KvData) -> (r: Result<String, Error>)
    requires
        write::nesting(data@) < usize::MAX,
    ensures
        match write::entry_text(EntryModel { name: name@, data: data@ }, 0, Seq::empty()) {
            Ok(t) => r matches Ok(s) && s@ == t,
            Err(e) => r matches Err(x) && x@ == e,
        },
{
    let floats: Vec<(u32, String)> = Vec::new();
    assert(write::table_model(floats@) =~= Seq::<(u32, Seq<char>)>::empty());
    write::text_to_string(name, data, &floats)
}

/// The text of one entry named `name` holding `data`, each float written as the text that
/// `floats` gives for its bits.
pub fn to_string_with_floats(name: &str, data: &KvData, floats: &Vec<(u32, String)>) -> (r: Result<String, Error>)
    requires
        write::nesting(data@) < usize::MAX,
    ensures
        match write::entry_text(EntryModel { name: name@, data: data@ }, 0, write::table_model(floats@)) {
            Ok(t) => r matches Ok(s) && s@ == t,
            Err(e) => r matches Err(x) && x@ == e,
        },
{
    write::text_to_string(name, data, floats)
}

/// The root entry of `input`, read with the default options.
pub fn from_str(input: &str) -> (r: Result<KvEntry, Error>)
    ensures
        match parser::parse_model(parser::without_bom(input@), 0, Options { escape_sequences: false, numeric_inference: true }) {
            Ok((e, _)) => r matches Ok(x) && x@ == e,
            Err(err) => r matches Err(x) && x@ == err,
        },
{
    let mut p = Parser::new(input);
    p.parse()
}

/// The root entry of `input`, read with `options`.
pub fn from_str_options(input: &str, options: Options) -> (r: Result<KvEntry, Error>)
    ensures
        match parser::parse_model(parser::without_bom(input@), 0, options) {
            Ok((e, _)) => r matches Ok(x) && x@ == e,
            Err(err) => r matches Err(x) && x@ == err,
        },
{
    let mut p = Parser::new(input).options(options);
    p.parse()
}

} // verus!
