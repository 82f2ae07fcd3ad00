use vstd::prelude::*;
use crate::binary::Dialect;
use crate::error::{Error, ErrorModel};
use crate::strings;
use crate::types::{DataModel, EntryModel, KvData, KvEntry, entries_model, lemma_compound_model};

verus! {

/// What a type byte announces.
#[derive(Clone, Copy, Debug, PartialEq, Eq, Structural)]
pub enum Tag {
    Compound,
    String,
    Int,
    Float,
    Pointer,
    WideString,
    Color,
    UInt64,
    BinaryString,
    Int64,
    Byte,
    Zero,
    One,
    End,
}

/// The meaning of a type byte in a dialect.
pub open spec fn tag_model(d: Dialect, b: u8) -> Result<Tag, ErrorModel> {
    if b == 0 { Ok(Tag::Compound) }
    else if b == 1 { Ok(Tag::String) }
    else if b == 2 { Ok(Tag::Int) }
    else if b == 3 { Ok(Tag::Float) }
    else if b == 4 { Ok(Tag::Pointer) }
    else if b == 5 { Ok(Tag::WideString) }
    else if b == 6 { Ok(Tag::Color) }
    else if b == 7 { Ok(Tag::UInt64) }
    else if d == Dialect::Vdf && b == 8 { Ok(Tag::End) }
    else if d == Dialect::Vdf && b == 9 { Ok(Tag::BinaryString) }
    else if d == Dialect::Vdf && b == 10 { Ok(Tag::Int64) }
    else if d == Dialect::Source && b == 8 { Ok(Tag::Byte) }
    else if d == Dialect::Source && b == 9 { Ok(Tag::Zero) }
    else if d == Dialect::Source && b == 10 { Ok(Tag::One) }
    else if d == Dialect::Source && b == 11 { Ok(Tag::End) }
    else { Err(ErrorModel::InvalidType(b)) }
}

impl Dialect {
    /// The meaning of a type byte.
    pub fn tag(self, byte: u8) -> (r: Result<Tag, Error>)
        ensures
            match tag_model(self, byte) {
                Ok(t) => r == Ok::<Tag, Error>(t),
                Err(e) => r matches Err(x) && x@ == e,
            },
    {
        match (self, byte) {
            (_, 0) => Ok(Tag::Compound),
            (_, 1) => Ok(Tag::String),
            (_, 2) => Ok(Tag::Int),
            (_, 3) => Ok(Tag::Float),
            (_, 4) => Ok(Tag::Pointer),
            (_, 5) => Ok(Tag::WideString),
            (_, 6) => Ok(Tag::Color),
            (_, 7) => Ok(Tag::UInt64),
            (Dialect::Vdf, 8) => Ok(Tag::End),
            (Dialect::Vdf, 9) => Ok(Tag::BinaryString),
            (Dialect::Vdf, 10) => Ok(Tag::Int64),
            (Dialect::Source, 8) => Ok(Tag::Byte),
            (Dialect::Source, 9) => Ok(Tag::Zero),
            (Dialect::Source, 10) => Ok(Tag::One),
            (Dialect::Source, 11) => Ok(Tag::End),
            _ => Err(Error::InvalidType(byte)),
        }
    }
}

/// `256^n`.
pub open spec fn pow256(n: nat) -> nat
    decreases n,
{
    if n == 0 { 1 } else { 256 * pow256((n - 1) as nat) }
}

/// The unsigned integer whose little-endian bytes are `s`.
pub open spec fn le_value(s: Seq<u8>) -> nat
    decreases s.len(),
{
    if s.len() == 0 { 0 } else { s[0] as nat + 256 * le_value(s.drop_first()) }
}

/// Two's complement reading of a 32-bit pattern.
pub open spec fn as_i32(u: nat) -> i32 {
    if u < 0x8000_0000 { u as i32 } else { (u - 0x1_0000_0000) as i32 }
}

/// Two's complement reading of a 64-bit pattern.
pub open spec fn as_i64(u: nat) -> i64 {
    if u < 0x8000_0000_0000_0000 { u as i64 } else { (u - 0x1_0000_0000_0000_0000) as i64 }
}

/// Little-endian 16-bit words of a byte sequence of even length.
pub open spec fn words_model(s: Seq<u8>) -> Seq<u16> {
    Seq::new(s.len() / 2, |i: int| (s[2 * i] as nat + 256 * (s[2 * i + 1] as nat)) as u16)
}

/// The characters that a name or string's bytes stand for: their UTF-8 decoding when
/// they are valid UTF-8, else `String::from_utf8_lossy`'s replacement.
pub open spec fn text_of_bytes(b: Seq<u8>) -> Seq<char> {
    if vstd::utf8::valid_utf8(b) { vstd::utf8::decode_utf8(b) } else { strings::utf8_lossy(b) }
}

/// `len` bytes from `pos`, and the position after them.
pub open spec fn take_model(buf: Seq<u8>, pos: int, len: int) -> Result<(Seq<u8>, int), ErrorModel> {
    if 0 <= pos && 0 <= len && pos + len <= buf.len() {
        Ok((buf.subrange(pos, pos + len), pos + len))
    } else {
        Err(ErrorModel::UnexpectedEof)
    }
}

/// The index of the first zero byte at or after `pos`, if any.
pub open spec fn zero_at_or_after(buf: Seq<u8>, pos: int) -> Option<int>
    decreases buf.len() - pos,
{
    if pos < 0 || pos >= buf.len() {
        None
    } else if buf[pos] == 0 {
        Some(pos)
    } else {
        zero_at_or_after(buf, pos + 1)
    }
}

/// A NUL-terminated string at `pos`: its characters and the position after the NUL.
pub open spec fn cstring_model(buf: Seq<u8>, pos: int) -> Result<(Seq<char>, int), ErrorModel> {
    match zero_at_or_after(buf, pos) {
        Some(z) => Ok((text_of_bytes(buf.subrange(pos, z)), z + 1)),
        None => Err(ErrorModel::UnterminatedCString),
    }
}

/// A little-endian unsigned integer of `n` bytes at `pos`.
pub open spec fn uint_model(buf: Seq<u8>, pos: int, n: int) -> Result<(nat, int), ErrorModel> {
    match take_model(buf, pos, n) {
        Ok((s, p)) => Ok((le_value(s), p)),
        Err(e) => Err(e),
    }
}

/// The value of the given tag at `pos` (for a compound, its entries up to the end marker).
pub open spec fn data_model(buf: Seq<u8>, pos: int, d: Dialect, tag: Tag) -> Result<(DataModel, int), ErrorModel>
    decreases buf.len() - pos, 2int,
{
    match tag {
        Tag::Compound => match compound_model(buf, pos, d) {
            Ok((es, p)) => Ok((DataModel::Compound(es), p)),
            Err(e) => Err(e),
        },
        Tag::String => match cstring_model(buf, pos) {
            Ok((s, p)) => Ok((DataModel::Str(s), p)),
            Err(e) => Err(e),
        },
        Tag::WideString => match uint_model(buf, pos, 2) {
            Ok((n, p)) => if n == 0 {
                Ok((DataModel::Wide(Seq::empty()), p))
            } else {
                match take_model(buf, p, (2 * n) as int) {
                    Ok((s, p2)) => Ok((DataModel::Wide(words_model(s)), p2)),
                    Err(e) => Err(e),
                }
            },
            Err(e) => Err(e),
        },
        Tag::BinaryString => match uint_model(buf, pos, 4) {
            Ok((n, p)) => match take_model(buf, p, n as int) {
                Ok((s, p2)) => Ok((DataModel::Bytes(s), p2)),
                Err(e) => Err(e),
            },
            Err(e) => Err(e),
        },
        Tag::Float => match uint_model(buf, pos, 4) {
            Ok((v, p)) => Ok((DataModel::Float(v as u32), p)),
            Err(e) => Err(e),
        },
        Tag::Color => match uint_model(buf, pos, 4) {
            Ok((v, p)) => Ok((DataModel::Color(v as u32), p)),
            Err(e) => Err(e),
        },
        Tag::Int => match uint_model(buf, pos, 4) {
            Ok((v, p)) => Ok((DataModel::Int(as_i32(v)), p)),
            Err(e) => Err(e),
        },
        Tag::UInt64 => match uint_model(buf, pos, 8) {
            Ok((v, p)) => Ok((DataModel::UInt64(v as u64), p)),
            Err(e) => Err(e),
        },
        Tag::Int64 => match uint_model(buf, pos, 8) {
            Ok((v, p)) => Ok((DataModel::Int64(as_i64(v)), p)),
            Err(e) => Err(e),
        },
        Tag::Pointer => match uint_model(buf, pos, 4) {
            Ok((v, p)) => Ok((DataModel::Pointer(v as usize), p)),
            Err(e) => Err(e),
        },
        Tag::Byte => match uint_model(buf, pos, 1) {
            Ok((v, p)) => Ok((DataModel::Int(v as i32), p)),
            Err(e) => Err(e),
        },
        Tag::Zero => Ok((DataModel::Int(0), pos)),
        Tag::One => Ok((DataModel::Int(1), pos)),
        Tag::End => Err(ErrorModel::UnexpectedEnd),
    }
}

/// The entry at `pos`: `None` for an end marker, else the tagged, named value.
pub open spec fn entry_model(buf: Seq<u8>, pos: int, d: Dialect) -> Result<(Option<EntryModel>, int), ErrorModel>
    decreases buf.len() - pos, 0int,
{
    if pos < 0 || pos >= buf.len() {
        Err(ErrorModel::UnexpectedEof)
    } else {
        match tag_model(d, buf[pos]) {
            Err(e) => Err(e),
            Ok(Tag::End) => Ok((None, pos + 1)),
            Ok(t) => match cstring_model(buf, pos + 1) {
                Err(e) => Err(e),
                Ok((name, p1)) => if p1 <= pos || p1 > buf.len() {
                    Err(ErrorModel::UnexpectedEof)
                } else {
                    match data_model(buf, p1, d, t) {
                        Err(e) => Err(e),
                        Ok((data, p2)) => Ok((Some(EntryModel { name, data }), p2)),
                    }
                },
            },
        }
    }
}

/// The entries from `pos` up to and including an end marker.
pub open spec fn compound_model(buf: Seq<u8>, pos: int, d: Dialect) -> Result<(Seq<EntryModel>, int), ErrorModel>
    decreases buf.len() - pos, 1int,
{
    match entry_model(buf, pos, d) {
        Err(e) => Err(e),
        Ok((None, p)) => Ok((Seq::empty(), p)),
        Ok((Some(e), p)) => if p <= pos || p > buf.len() {
            Err(ErrorModel::UnexpectedEof)
        } else {
            match compound_model(buf, p, d) {
                Ok((es, p2)) => Ok((seq![e] + es, p2)),
                Err(err) => Err(err),
            }
        },
    }
}

/// Where reading the value of `tag` at `pos` stops when it fails: past the length of a
/// wide or binary string whose content is cut short, inside a compound where its failing
/// entry stops, and where it started otherwise.
pub open spec fn data_fail_pos(buf: Seq<u8>, pos: int, d: Dialect, tag: Tag) -> int
    decreases buf.len() - pos, 2int,
{
    match tag {
        Tag::Compound => compound_fail_pos(buf, pos, d),
        Tag::WideString => if 0 <= pos && pos + 2 <= buf.len() { pos + 2 } else { pos },
        Tag::BinaryString => if 0 <= pos && pos + 4 <= buf.len() { pos + 4 } else { pos },
        _ => pos,
    }
}

/// Where reading the entry at `pos` stops when it fails: at the end of the text when there
/// is no tag, just past the tag when the tag or the name is bad, else where its value stops.
pub open spec fn entry_fail_pos(buf: Seq<u8>, pos: int, d: Dialect) -> int
    decreases buf.len() - pos, 0int,
{
    if pos < 0 || pos >= buf.len() {
        pos
    } else {
        match tag_model(d, buf[pos]) {
            Err(_) => pos + 1,
            Ok(Tag::End) => pos + 1,
            Ok(t) => match cstring_model(buf, pos + 1) {
                Err(_) => pos + 1,
                Ok((_, p1)) => if p1 <= pos || p1 > buf.len() {
                    p1
                } else {
                    data_fail_pos(buf, p1, d, t)
                },
            },
        }
    }
}

/// Where reading the entries of a compound from `pos` stops when it fails: where its first
/// failing entry stops.
pub open spec fn compound_fail_pos(buf: Seq<u8>, pos: int, d: Dialect) -> int
    decreases buf.len() - pos, 1int,
{
    match entry_model(buf, pos, d) {
        Err(_) => entry_fail_pos(buf, pos, d),
        Ok((None, p)) => p,
        Ok((Some(_), p)) => if p <= pos || p > buf.len() { p } else { compound_fail_pos(buf, p, d) },
    }
}

/// The model of an optional entry.
pub open spec fn opt_entry_model(e: Option<KvEntry>) -> Option<EntryModel> {
    match e {
        Some(e) => Some(e@),
        None => None,
    }
}

/// A reader of binary KeyValues from a byte buffer.
pub struct Parser<'a> {
    buf: &'a [u8],
    pos: usize,
    dialect: Dialect,
}

impl<'a> Parser<'a> {
    #[verifier::type_invariant]
    spec fn inv(self) -> bool {
        self.pos <= self.buf@.len()
    }

    /// The bytes being read.
    pub closed spec fn input(self) -> Seq<u8> {
        self.buf@
    }

    /// The read position.
    pub closed spec fn position(self) -> int {
        self.pos as int
    }

    /// The dialect the bytes are read in.
    pub closed spec fn dialect_of(self) -> Dialect {
        self.dialect
    }

    /// A reader at the start of `buf`, in the VDF dialect.
    pub fn new(buf: &'a [u8]) -> (p: Self)
        ensures
            p.input() == buf@,
            p.position() == 0,
            p.dialect_of() == Dialect::Vdf,
    {
        Parser { buf, pos: 0, dialect: Dialect::Vdf }
    }

    /// A reader at the start of `buf`, in the Source dialect.
    pub fn source(buf: &'a [u8]) -> (p: Self)
        ensures
            p.input() == buf@,
            p.position() == 0,
            p.dialect_of() == Dialect::Source,
    {
        Self::new(buf).dialect(Dialect::Source)
    }

    /// The same reader, reading in `dialect`.
    pub fn dialect(self, dialect: Dialect) -> (p: Self)
        ensures
            p.input() == self.input(),
            p.position() == self.position(),
            p.dialect_of() == dialect,
    {
        proof { use_type_invariant(&self); }
        Parser { buf: self.buf, pos: self.pos, dialect }
    }

    /// Reads one entry: `None` at an end marker.
    pub fn parse(&mut self) -> (r: Result<Option<KvEntry>, Error>)
        ensures
            final(self).input() == old(self).input(),
            final(self).dialect_of() == old(self).dialect_of(),
            match entry_model(old(self).input(), old(self).position(), old(self).dialect_of()) {
                Ok((e, p)) => r matches Ok(x) && opt_entry_model(x) == e && final(self).position() == p,
                Err(err) => r matches Err(x) && x@ == err
                    && final(self).position() == entry_fail_pos(old(self).input(), old(self).position(), old(self).dialect_of()),
            },
    {
        self.parse_entry()
    }

    fn take(&mut self, len: usize) -> (r: Result<&'a [u8], Error>)
        ensures
            final(self).buf@ == old(self).buf@,
            final(self).dialect == old(self).dialect,
            match take_model(old(self).buf@, old(self).pos as int, len as int) {
                Ok((s, p)) => r matches Ok(x) && x@ == s && final(self).pos == p,
                Err(e) => r matches Err(x) && x@ == e && final(self).pos == old(self).pos,
            },
    {
        proof { use_type_invariant(&*self); }
        if len > self.buf.len() - self.pos {
            return Err(Error::UnexpectedEof);
        }
        let end = self.pos + len;
        let slice = slice_range(self.buf, self.pos, end);
        self.pos = end;
        Ok(slice)
    }

    fn read_u8(&mut self) -> (r: Result<u8, Error>)
        ensures
            final(self).buf@ == old(self).buf@,
            final(self).dialect == old(self).dialect,
            match uint_model(old(self).buf@, old(self).pos as int, 1) {
                Ok((v, p)) => r matches Ok(x) && x == v && final(self).pos == p,
                Err(e) => r matches Err(x) && x@ == e && final(self).pos == old(self).pos,
            },
    {
        let s = self.take(1)?;
        proof {
            assert(s@.drop_first().len() == 0);
            assert(le_value(s@) == s@[0] as nat + 256 * le_value(s@.drop_first()));
        }
        Ok(s[0])
    }

    fn read_uint(&mut self, n: usize) -> (r: Result<u64, Error>)
        requires
            1 <= n <= 8,
        ensures
            final(self).buf@ == old(self).buf@,
            final(self).dialect == old(self).dialect,
            match uint_model(old(self).buf@, old(self).pos as int, n as int) {
                Ok((v, p)) => r matches Ok(x) && x == v && v < pow256(n as nat) && final(self).pos == p,
                Err(e) => r matches Err(x) && x@ == e && final(self).pos == old(self).pos,
            },
    {
        let s = self.take(n)?;
        Ok(le_u64(s))
    }

    fn read_u16_le(&mut self) -> (r: Result<u16, Error>)
        ensures
            final(self).buf@ == old(self).buf@,
            final(self).dialect == old(self).dialect,
            match uint_model(old(self).buf@, old(self).pos as int, 2) {
                Ok((v, p)) => r matches Ok(x) && x == v && final(self).pos == p,
                Err(e) => r matches Err(x) && x@ == e && final(self).pos == old(self).pos,
            },
    {
        let v = self.read_uint(2)?;
        proof { lemma_pow256_values(); }
        Ok(v as u16)
    }

    fn read_u32_le(&mut self) -> (r: Result<u32, Error>)
        ensures
            final(self).buf@ == old(self).buf@,
            final(self).dialect == old(self).dialect,
            match uint_model(old(self).buf@, old(self).pos as int, 4) {
                Ok((v, p)) => r matches Ok(x) && x == v && final(self).pos == p,
                Err(e) => r matches Err(x) && x@ == e && final(self).pos == old(self).pos,
            },
    {
        let v = self.read_uint(4)?;
        proof { lemma_pow256_values(); }
        Ok(v as u32)
    }

    fn read_u64_le(&mut self) -> (r: Result<u64, Error>)
        ensures
            final(self).buf@ == old(self).buf@,
            final(self).dialect == old(self).dialect,
            match uint_model(old(self).buf@, old(self).pos as int, 8) {
                Ok((v, p)) => r matches Ok(x) && x == v && final(self).pos == p,
                Err(e) => r matches Err(x) && x@ == e && final(self).pos == old(self).pos,
            },
    {
        self.read_uint(8)
    }

    fn read_i32_le(&mut self) -> (r: Result<i32, Error>)
        ensures
            final(self).buf@ == old(self).buf@,
            final(self).dialect == old(self).dialect,
            match uint_model(old(self).buf@, old(self).pos as int, 4) {
                Ok((v, p)) => r matches Ok(x) && x == as_i32(v) && final(self).pos == p,
                Err(e) => r matches Err(x) && x@ == e && final(self).pos == old(self).pos,
            },
    {
        let u = self.read_u32_le()?;
        if u < 0x8000_0000 {
            Ok(u as i32)
        } else {
            Ok(((u - 0x8000_0000) as i32) + i32::MIN)
        }
    }

    fn read_i64_le(&mut self) -> (r: Result<i64, Error>)
        ensures
            final(self).buf@ == old(self).buf@,
            final(self).dialect == old(self).dialect,
            match uint_model(old(self).buf@, old(self).pos as int, 8) {
                Ok((v, p)) => r matches Ok(x) && x == as_i64(v) && final(self).pos == p,
                Err(e) => r matches Err(x) && x@ == e && final(self).pos == old(self).pos,
            },
    {
        let u = self.read_u64_le()?;
        if u < 0x8000_0000_0000_0000 {
            Ok(u as i64)
        } else {
            Ok(((u - 0x8000_0000_0000_0000) as i64) + i64::MIN)
        }
    }

    fn read_str(&mut self) -> (r: Result<&'a [u8], Error>)
        ensures
            final(self).buf@ == old(self).buf@,
            final(self).dialect == old(self).dialect,
            match zero_at_or_after(old(self).buf@, old(self).pos as int) {
                Some(z) => r matches Ok(x) && x@ == old(self).buf@.subrange(old(self).pos as int, z)
                    && final(self).pos == z + 1,
                None => r matches Err(x) && x@ == ErrorModel::UnterminatedCString
                    && final(self).pos == old(self).pos,
            },
    {
        proof { use_type_invariant(&*self); }
        match find_zero(self.buf, self.pos) {
            Some(z) => {
                let value = slice_range(self.buf, self.pos, z);
                let n = self.buf.len();
                assert(z < n);
                self.pos = z + 1;
                Ok(value)
            },
            None => Err(Error::UnterminatedCString),
        }
    }

    fn read_cow(&mut self) -> (r: Result<String, Error>)
        ensures
            final(self).buf@ == old(self).buf@,
            final(self).dialect == old(self).dialect,
            match cstring_model(old(self).buf@, old(self).pos as int) {
                Ok((s, p)) => r matches Ok(x) && x@ == s && final(self).pos == p,
                Err(e) => r matches Err(x) && x@ == e && final(self).pos == old(self).pos,
            },
    {
        let slice = self.read_str()?;
        Ok(strings::decode_utf8_lossy(slice))
    }

    fn read_binary_string(&mut self) -> (r: Result<Vec<u8>, Error>)
        ensures
            final(self).buf@ == old(self).buf@,
            final(self).dialect == old(self).dialect,
            match data_model(old(self).buf@, old(self).pos as int, old(self).dialect, Tag::BinaryString) {
                Ok((d, p)) => r matches Ok(x) && DataModel::Bytes(x@) == d && final(self).pos == p,
                Err(e) => r matches Err(x) && x@ == e && final(self).pos == if old(self).pos + 4 <= old(self).buf@.len() {
                    old(self).pos + 4
                } else {
                    old(self).pos as int
                },
            },
    {
        let len = self.read_u32_le()? as usize;
        let s = self.take(len)?;
        Ok(slice_to_vec_u8(s))
    }

    fn read_wide_string(&mut self) -> (r: Result<Vec<u16>, Error>)
        ensures
            final(self).buf@ == old(self).buf@,
            final(self).dialect == old(self).dialect,
            match data_model(old(self).buf@, old(self).pos as int, old(self).dialect, Tag::WideString) {
                Ok((d, p)) => r matches Ok(x) && DataModel::Wide(x@) == d && final(self).pos == p,
                Err(e) => r matches Err(x) && x@ == e && final(self).pos == if old(self).pos + 2 <= old(self).buf@.len() {
                    old(self).pos + 2
                } else {
                    old(self).pos as int
                },
            },
    {
        let len = self.read_u16_le()? as usize;
        if len == 0 {
            let v: Vec<u16> = Vec::new();
            assert(v@ == Seq::<u16>::empty());
            return Ok(v);
        }
        let bytes = self.take(len * 2)?;
        let mut words: Vec<u16> = Vec::new();
        let mut i: usize = 0;
        while i < len
            invariant
                bytes@.len() == 2 * len,
                len <= 0xffff,
                i <= len,
                words@ == words_model(bytes@).subrange(0, i as int),
            decreases len - i,
        {
            let w = (bytes[2 * i] as u16) + 256 * (bytes[2 * i + 1] as u16);
            words.push(w);
            assert(words@ =~= words_model(bytes@).subrange(0, i + 1));
            i += 1;
        }
        assert(words_model(bytes@).subrange(0, len as int) =~= words_model(bytes@));
        Ok(words)
    }

    fn parse_data(&mut self, tag: Tag) -> (r: Result<KvData, Error>)
        ensures
            final(self).buf@ == old(self).buf@,
            final(self).dialect == old(self).dialect,
            match data_model(old(self).buf@, old(self).pos as int, old(self).dialect, tag) {
                Ok((d, p)) => r matches Ok(x) && x@ == d && final(self).pos == p,
                Err(e) => r matches Err(x) && x@ == e
                    && final(self).pos == data_fail_pos(old(self).buf@, old(self).pos as int, old(self).dialect, tag),
            },
        decreases old(self).buf@.len() - old(self).pos, 2int,
    {
        proof { use_type_invariant(&*self); }
        match tag {
            Tag::Compound => {
                let es = self.parse_compound()?;
                proof { lemma_compound_model(es); }
                Ok(KvData::Compound(es))
            },
            Tag::String => Ok(KvData::String(self.read_cow()?)),
            Tag::WideString => Ok(KvData::WideString(self.read_wide_string()?)),
            Tag::BinaryString => Ok(KvData::BinaryString(self.read_binary_string()?)),
            Tag::Float => Ok(KvData::Float(self.read_u32_le()?)),
            Tag::Color => Ok(KvData::Color(self.read_u32_le()?)),
            Tag::Int => Ok(KvData::Int(self.read_i32_le()?)),
            Tag::UInt64 => Ok(KvData::UInt64(self.read_u64_le()?)),
            Tag::Int64 => Ok(KvData::Int64(self.read_i64_le()?)),
            Tag::Pointer => Ok(KvData::Pointer(self.read_u32_le()? as usize)),
            // 8/9/10 encode an int in Source: the reader gives them the int type too
            Tag::Byte => Ok(KvData::Int(self.read_u8()? as i32)),
            Tag::Zero => Ok(KvData::Int(0)),
            Tag::One => Ok(KvData::Int(1)),
            Tag::End => Err(Error::UnexpectedEnd),
        }
    }

    fn parse_compound(&mut self) -> (r: Result<Vec<KvEntry>, Error>)
        ensures
            final(self).buf@ == old(self).buf@,
            final(self).dialect == old(self).dialect,
            match compound_model(old(self).buf@, old(self).pos as int, old(self).dialect) {
                Ok((es, p)) => r matches Ok(x) && entries_model(x@) == es && final(self).pos == p,
                Err(e) => r matches Err(x) && x@ == e
                    && final(self).pos == compound_fail_pos(old(self).buf@, old(self).pos as int, old(self).dialect),
            },
        decreases old(self).buf@.len() - old(self).pos, 1int,
    {
        proof { use_type_invariant(&*self); }
        let ghost buf = self.buf@;
        let ghost d = self.dialect;
        let ghost start = self.pos as int;
        let mut entries: Vec<KvEntry> = Vec::new();
        loop
            invariant
                self.buf@ == buf,
                self.dialect == d,
                buf == old(self).buf@,
                d == old(self).dialect,
                start == old(self).pos,
                start <= self.pos <= buf.len(),
                compound_model(buf, start, d) == (match compound_model(buf, self.pos as int, d) {
                    Ok((es, p)) => Ok((entries_model(entries@) + es, p)),
                    Err(e) => Err(e),
                }),
                compound_fail_pos(buf, start, d) == compound_fail_pos(buf, self.pos as int, d),
            decreases buf.len() - self.pos,
        {
            let ghost before = self.pos as int;
            match self.parse_entry() {
                Err(e) => {
                    return Err(e);
                },
                Ok(None) => {
                    assert(entries_model(entries@) + Seq::<EntryModel>::empty() =~= entries_model(entries@));
                    return Ok(entries);
                },
                Ok(Some(entry)) => {
                    proof {
                        lemma_entry_bounds(buf, before, d);
                        assert(entries_model(entries@.push(entry)) =~= entries_model(entries@) + seq![entry@]);
                        let rest = compound_model(buf, self.pos as int, d);
                        match rest {
                            Ok((es, p)) => {
                                assert(entries_model(entries@) + (seq![entry@] + es)
                                    =~= entries_model(entries@.push(entry)) + es);
                            },
                            Err(_) => {},
                        }
                    }
                    entries.push(entry);
                },
            }
        }
    }

    #[verifier::rlimit(40)]
    fn parse_entry(&mut self) -> (r: Result<Option<KvEntry>, Error>)
        ensures
            final(self).buf@ == old(self).buf@,
            final(self).dialect == old(self).dialect,
            match entry_model(old(self).buf@, old(self).pos as int, old(self).dialect) {
                Ok((e, p)) => r matches Ok(x) && opt_entry_model(x) == e && final(self).pos == p,
                Err(err) => r matches Err(x) && x@ == err
                    && final(self).pos == entry_fail_pos(old(self).buf@, old(self).pos as int, old(self).dialect),
            },
        decreases old(self).buf@.len() - old(self).pos, 0int,
    {
        proof { use_type_invariant(&*self); }
        let ghost buf = self.buf@;
        let ghost start = self.pos as int;
        let byte = match self.read_u8() {
            Ok(b) => b,
            Err(e) => { return Err(e); },
        };
        proof {
            assert(buf.subrange(start, start + 1)[0] == buf[start]);
            assert(le_value(buf.subrange(start, start + 1)) == buf[start] as nat) by {
                assert(buf.subrange(start, start + 1).drop_first().len() == 0);
            }
        }
        let tag = match self.dialect.tag(byte) {
            Ok(t) => t,
            Err(e) => { return Err(e); },
        };
        if let Tag::End = tag {
            return Ok(None);
        }
        let name = match self.read_cow() {
            Ok(n) => n,
            Err(e) => { return Err(e); },
        };
        proof { lemma_cstring_bounds(buf, start + 1); }
        let data = match self.parse_data(tag) {
            Ok(d) => d,
            Err(e) => { return Err(e); },
        };
        Ok(Some(KvEntry { name, data }))
    }
}

pub proof fn lemma_cstring_bounds(buf: Seq<u8>, pos: int)
    requires
        0 <= pos,
        cstring_model(buf, pos) is Ok,
    ensures
        pos < cstring_model(buf, pos)->Ok_0.1 <= buf.len(),
{
    lemma_zero_bounds(buf, pos);
}

proof fn lemma_zero_bounds(buf: Seq<u8>, pos: int)
    requires
        zero_at_or_after(buf, pos) is Some,
    ensures
        pos <= zero_at_or_after(buf, pos)->0 < buf.len(),
        buf[zero_at_or_after(buf, pos)->0] == 0,
        forall|j: int| pos <= j < zero_at_or_after(buf, pos)->0 ==> buf[j] != 0,
    decreases buf.len() - pos,
{
    if buf[pos] != 0 {
        lemma_zero_bounds(buf, pos + 1);
    }
}

pub proof fn lemma_data_bounds(buf: Seq<u8>, pos: int, d: Dialect, t: Tag)
    requires
        0 <= pos <= buf.len(),
        data_model(buf, pos, d, t) is Ok,
    ensures
        pos <= data_model(buf, pos, d, t)->Ok_0.1 <= buf.len(),
    decreases buf.len() - pos, 2int,
{
    match t {
        Tag::Compound => { lemma_compound_bounds(buf, pos, d); },
        Tag::String => { lemma_cstring_bounds(buf, pos); },
        _ => {},
    }
}

pub proof fn lemma_compound_bounds(buf: Seq<u8>, pos: int, d: Dialect)
    requires
        0 <= pos <= buf.len(),
        compound_model(buf, pos, d) is Ok,
    ensures
        pos < compound_model(buf, pos, d)->Ok_0.1 <= buf.len(),
    decreases buf.len() - pos, 1int,
{
    lemma_entry_bounds(buf, pos, d);
    match entry_model(buf, pos, d) {
        Ok((None, p)) => {},
        Ok((Some(e), p)) => {
            assert(pos < p <= buf.len());
            lemma_compound_bounds(buf, p, d);
        },
        Err(_) => {},
    }
}

pub proof fn lemma_entry_bounds(buf: Seq<u8>, pos: int, d: Dialect)
    requires
        entry_model(buf, pos, d) is Ok,
    ensures
        pos < entry_model(buf, pos, d)->Ok_0.1 <= buf.len(),
    decreases buf.len() - pos, 0int,
{
    match tag_model(d, buf[pos]) {
        Ok(Tag::End) => {},
        Ok(t) => {
            let p1 = cstring_model(buf, pos + 1)->Ok_0.1;
            lemma_data_bounds(buf, p1, d, t);
        },
        Err(_) => {},
    }
}

/// The index of the first zero byte of `buf` at or after `start`.
fn find_zero(buf: &[u8], start: usize) -> (r: Option<usize>)
    requires
        start <= buf@.len(),
    ensures
        r matches Some(z) ==> zero_at_or_after(buf@, start as int) == Some(z as int) && start <= z < buf@.len(),
        r is None ==> zero_at_or_after(buf@, start as int) is None,
{
    let mut i = start;
    while i < buf.len()
        invariant
            start <= i <= buf@.len(),
            zero_at_or_after(buf@, start as int) == zero_at_or_after(buf@, i as int),
        decreases buf@.len() - i,
    {
        if buf[i] == 0 {
            return Some(i);
        }
        i += 1;
    }
    None
}

/// `s[from..to]`.
fn slice_range<'b>(s: &'b [u8], from: usize, to: usize) -> (r: &'b [u8])
    requires
        from <= to <= s@.len(),
    ensures
        r@ == s@.subrange(from as int, to as int),
{
    vstd::slice::slice_subrange(s, from, to)
}

fn slice_to_vec_u8(s: &[u8]) -> (v: Vec<u8>)
    ensures
        v@ == s@,
{
    let mut v: Vec<u8> = Vec::new();
    let mut i: usize = 0;
    while i < s.len()
        invariant
            i <= s@.len(),
            v@ == s@.subrange(0, i as int),
        decreases s@.len() - i,
    {
        v.push(s[i]);
        assert(s@.subrange(0, i + 1) == s@.subrange(0, i as int).push(s@[i as int]));
        i += 1;
    }
    assert(s@.subrange(0, s@.len() as int) == s@);
    v
}

proof fn lemma_le_bound(s: Seq<u8>)
    ensures
        le_value(s) < pow256(s.len()),
    decreases s.len(),
{
    if s.len() > 0 {
        lemma_le_bound(s.drop_first());
        assert(le_value(s) <= 255 + 256 * (pow256((s.len() - 1) as nat) - 1)) by (nonlinear_arith)
            requires
                le_value(s) == s[0] as nat + 256 * le_value(s.drop_first()),
                le_value(s.drop_first()) < pow256((s.len() - 1) as nat),
                s[0] <= 255;
    }
}

/// The little-endian value of at most 8 bytes.
fn le_u64(s: &[u8]) -> (v: u64)
    requires
        1 <= s@.len() <= 8,
    ensures
        v == le_value(s@),
        v < pow256(s@.len()),
{
    proof {
        lemma_le_bound(s@);
        lemma_pow256_values();
    }
    let n = s.len();
    let mut acc: u64 = 0;
    let mut i: usize = n;
    while i > 0
        invariant
            0 <= i <= n,
            n == s@.len(),
            n <= 8,
            acc == le_value(s@.subrange(i as int, n as int)),
            pow256(8) == 0x1_0000_0000_0000_0000,
        decreases i,
    {
        let ghost tail = s@.subrange(i as int, n as int);
        proof {
            lemma_le_bound(tail);
            lemma_pow256_mono((n - i) as nat, 7);
            assert(s@.subrange(i - 1, n as int).drop_first() == tail);
            assert(acc * 256 + 255 < 0x1_0000_0000_0000_0000) by (nonlinear_arith)
                requires acc < pow256((n - i) as nat), pow256((n - i) as nat) <= pow256(7),
                    pow256(7) == 0x100_0000_0000_0000;
        }
        i -= 1;
        acc = acc * 256 + s[i] as u64;
    }
    assert(s@.subrange(0, n as int) == s@);
    acc
}

proof fn lemma_pow256_values()
    ensures
        pow256(1) == 0x100,
        pow256(2) == 0x1_0000,
        pow256(4) == 0x1_0000_0000,
        pow256(7) == 0x100_0000_0000_0000,
        pow256(8) == 0x1_0000_0000_0000_0000,
{
    reveal_with_fuel(pow256, 9);
}

proof fn lemma_pow256_mono(a: nat, b: nat)
    requires
        a <= b,
    ensures
        pow256(a) <= pow256(b),
        pow256(7) == 0x100_0000_0000_0000,
    decreases b,
{
    lemma_pow256_values();
    if a < b {
        lemma_pow256_mono(a, (b - 1) as nat);
    }
}

} // verus!
