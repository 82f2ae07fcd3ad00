use vstd::prelude::*;

verus! {

/// The errors that reading or writing KeyValues data can give.
#[derive(Clone, Debug, PartialEq, Eq)]
pub enum Error {
    UnexpectedEof,
    UnexpectedToken,
    UnexpectedEnd,
    UnterminatedCString,
    InvalidUtf8,
    InvalidUtf16,
    InvalidType(u8),
    Message(String),
    Unsupported(&'static str),
}

/// Mathematical value of an [`Error`]: the same variants, with texts as character sequences.
pub enum ErrorModel {
    UnexpectedEof,
    UnexpectedToken,
    UnexpectedEnd,
    UnterminatedCString,
    InvalidUtf8,
    InvalidUtf16,
    InvalidType(u8),
    Message(Seq<char>),
    Unsupported(Seq<char>),
}

impl View for Error {
    type V = ErrorModel;

    open spec fn view(&self) -> ErrorModel {
        match self {
            Error::UnexpectedEof => ErrorModel::UnexpectedEof,
            Error::UnexpectedToken => ErrorModel::UnexpectedToken,
            Error::UnexpectedEnd => ErrorModel::UnexpectedEnd,
            Error::UnterminatedCString => ErrorModel::UnterminatedCString,
            Error::InvalidUtf8 => ErrorModel::InvalidUtf8,
            Error::InvalidUtf16 => ErrorModel::InvalidUtf16,
            Error::InvalidType(t) => ErrorModel::InvalidType(*t),
            Error::Message(m) => ErrorModel::Message(m@),
            Error::Unsupported(m) => ErrorModel::Unsupported(m@),
        }
    }
}

/// The message an error displays.
pub open spec fn error_text(e: ErrorModel) -> Seq<char> {
    match e {
        ErrorModel::UnexpectedEof => "unexpected EOF"@,
        ErrorModel::UnexpectedToken => "unexpected token"@,
        ErrorModel::UnexpectedEnd => "unexpected end marker"@,
        ErrorModel::UnterminatedCString => "cstring not terminated"@,
        ErrorModel::InvalidUtf8 => "invalid UTF-8 string"@,
        ErrorModel::InvalidUtf16 => "invalid UTF-16 string"@,
        ErrorModel::InvalidType(t) => "invalid binary keyvalues type "@ + crate::number::decimal(t as nat),
        ErrorModel::Message(m) => m,
        ErrorModel::Unsupported(m) => "unsupported serde value "@ + m,
    }
}

impl Error {
    /// The message the error displays, as `Display` shows it.
    pub fn message(&self) -> (s: String)
        ensures
            s@ == error_text(self@),
    {
        match self {
            Error::UnexpectedEof => String::from_str("unexpected EOF"),
            Error::UnexpectedToken => String::from_str("unexpected token"),
            Error::UnexpectedEnd => String::from_str("unexpected end marker"),
            Error::UnterminatedCString => String::from_str("cstring not terminated"),
            Error::InvalidUtf8 => String::from_str("invalid UTF-8 string"),
            Error::InvalidUtf16 => String::from_str("invalid UTF-16 string"),
            Error::InvalidType(ty) => {
                let mut s = String::from_str("invalid binary keyvalues type ");
                let digits = crate::number::format_u64(*ty as u64);
                s.append(digits.as_str());
                s
            },
            Error::Message(msg) => msg.clone(),
            Error::Unsupported(ty) => {
                let mut s = String::from_str("unsupported serde value ");
                s.append(ty);
                s
            },
        }
    }
}

} // verus!
