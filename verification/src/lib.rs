use vstd::prelude::*;

pub mod error;
pub mod strings;
pub mod number;
pub mod types;
pub mod binary;
pub mod text;
pub mod ser;
pub mod de;

pub use error::Error;
pub use types::{KvData, KvEntry};
pub use binary::Dialect;

verus! {
} // verus!
