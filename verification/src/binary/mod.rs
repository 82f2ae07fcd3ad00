use vstd::prelude::*;
use crate::error::{Error, ErrorModel};
use crate::types::{EntryModel, KvData, KvEntry};
use crate::binary::parser::entry_model;
use crate::binary::write::{binary_to_vec, entry_bytes};

pub mod parser;
pub mod write;
pub mod roundtrip;
pub mod stream;

pub use parser::Parser;

verus! {

/// The two binary KeyValues layouts: Steam's VDF and Source engine KeyValues.
#[derive(Clone, Copy, Debug, PartialEq, Eq, Structural)]
pub enum Dialect {
    Vdf,
    Source,
}

impl Default for Dialect {
    fn default() -> (d: Self)
        ensures
            d == Dialect::Vdf,
    {
        Dialect::Vdf
    }
}

/// The VDF encoding of one entry named `name` holding `data`.
pub fn to_vec(name: &str, data: &KvData) -> (r: Result<Vec<u8>, Error>)
    ensures
        match entry_bytes(EntryModel { name: name@, data: data@ }, Dialect::Vdf) {
            Ok(b) => r matches Ok(v) && v@ == b,
            Err(e) => r matches Err(x) && x@ == e,
        },
{
    binary_to_vec(name, data, Dialect::Vdf)
}

/// The encoding of one entry named `name` holding `data`, in `dialect`.
pub fn to_vec_dialect(name: &str, data: &KvData, dialect: Dialect) -> (r: Result<Vec<u8>, Error>)
    ensures
        match entry_bytes(EntryModel { name: name@, data: data@ }, dialect) {
            Ok(b) => r matches Ok(v) && v@ == b,
            Err(e) => r matches Err(x) && x@ == e,
        },
{
    binary_to_vec(name, data, dialect)
}

/// The root entry of VDF bytes; an end marker in its place is an error.
pub fn from_slice(input: &[u8]) -> (r: Result<KvEntry, Error>)
    ensures
        match entry_model(input@, 0, Dialect::Vdf) {
            Ok((Some(e), _)) => r matches Ok(x) && x@ == e,
            Ok((None, _)) => r matches Err(x) && x@ == ErrorModel::UnexpectedEnd,
            Err(e) => r matches Err(x) && x@ == e,
        },
{
    from_slice_dialect(input, Dialect::Vdf)
}

/// The root entry of bytes in `dialect`; an end marker in its place is an error.
pub fn from_slice_dialect(input: &[u8], dialect: Dialect) -> (r: Result<KvEntry, Error>)
    ensures
        match entry_model(input@, 0, dialect) {
            Ok((Some(e), _)) => r matches Ok(x) && x@ == e,
            Ok((None, _)) => r matches Err(x) && x@ == ErrorModel::UnexpectedEnd,
            Err(e) => r matches Err(x) && x@ == e,
        },
{
    let mut parser = Parser::new(input).dialect(dialect);
    match parser.parse()? {
        Some(root) => Ok(root),
        None => Err(Error::UnexpectedEnd),
    }
}

} // verus!
