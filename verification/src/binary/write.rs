use vstd::prelude::*;
use vstd::utf8::encode_utf8;
use crate::binary::Dialect;
use crate::error::{Error, ErrorModel};
use crate::strings;
use crate::types::{DataModel, EntryModel, KvData, KvEntry, entries_model};

verus! {

/// The `n` little-endian bytes of `v` (its value modulo `256^n`).
pub open spec fn le_bytes(v: nat, n: nat) -> Seq<u8>
    decreases n,
{
    if n == 0 {
        Seq::empty()
    } else {
        seq![(v % 256) as u8] + le_bytes(v / 256, (n - 1) as nat)
    }
}

/// Two's complement bit pattern of an `i32`.
pub open spec fn i32_bits(v: i32) -> nat {
    if v < 0 { (v + 0x1_0000_0000) as nat } else { v as nat }
}

/// Two's complement bit pattern of an `i64`.
pub open spec fn i64_bits(v: i64) -> nat {
    if v < 0 { (v + 0x1_0000_0000_0000_0000) as nat } else { v as nat }
}

/// The error for a string holding a NUL.
pub open spec fn nul_error() -> ErrorModel {
    ErrorModel::Message("strings cannot contain NUL bytes"@)
}

/// A NUL-terminated UTF-8 string; a string holding NUL cannot be written.
pub open spec fn cstring_bytes(s: Seq<char>) -> Result<Seq<u8>, ErrorModel> {
    if encode_utf8(s).contains(0u8) {
        Err(nul_error())
    } else {
        Ok(encode_utf8(s).push(0u8))
    }
}

/// The little-endian bytes of 16-bit words.
pub open spec fn words_bytes(w: Seq<u16>) -> Seq<u8>
    decreases w.len(),
{
    if w.len() == 0 {
        Seq::empty()
    } else {
        le_bytes(w[0] as nat, 2) + words_bytes(w.drop_first())
    }
}

/// The type byte of a value in a dialect.
pub open spec fn tag_byte(d: DataModel, dialect: Dialect) -> Result<u8, ErrorModel> {
    match d {
        DataModel::Compound(_) => Ok(0u8),
        DataModel::Str(_) => Ok(1u8),
        DataModel::Int(_) => Ok(2u8),
        DataModel::Float(_) => Ok(3u8),
        DataModel::Pointer(_) => Ok(4u8),
        DataModel::Wide(_) => Ok(5u8),
        DataModel::Color(_) => Ok(6u8),
        DataModel::UInt64(_) => Ok(7u8),
        DataModel::Bytes(_) => if dialect == Dialect::Vdf {
            Ok(9u8)
        } else {
            Err(ErrorModel::Unsupported("binary string in source kv"@))
        },
        DataModel::Int64(_) => if dialect == Dialect::Vdf {
            Ok(10u8)
        } else {
            Err(ErrorModel::Unsupported("int64 in source kv"@))
        },
    }
}

/// The byte that ends a compound.
pub open spec fn end_byte(dialect: Dialect) -> u8 {
    if dialect == Dialect::Vdf { 8u8 } else { 11u8 }
}

/// The bytes of a value after its entry's name.
pub open spec fn data_bytes(d: DataModel, dialect: Dialect) -> Result<Seq<u8>, ErrorModel>
    decreases d, 1int,
{
    match d {
        DataModel::Compound(es) => match entries_bytes(es, dialect) {
            Ok(b) => Ok(b.push(end_byte(dialect))),
            Err(e) => Err(e),
        },
        DataModel::Str(s) => cstring_bytes(s),
        DataModel::Wide(w) => if w.len() > 0xffff {
            Err(ErrorModel::Message("wide string is too long"@))
        } else {
            Ok(le_bytes(w.len(), 2) + words_bytes(w))
        },
        DataModel::Bytes(b) => if b.len() > 0xffff_ffff {
            Err(ErrorModel::Message("binary string is too long"@))
        } else {
            Ok(le_bytes(b.len(), 4) + b)
        },
        DataModel::Int(v) => Ok(le_bytes(i32_bits(v), 4)),
        DataModel::Int64(v) => Ok(le_bytes(i64_bits(v), 8)),
        DataModel::UInt64(v) => Ok(le_bytes(v as nat, 8)),
        DataModel::Float(v) => Ok(le_bytes(v as nat, 4)),
        DataModel::Pointer(v) => if v > 0xffff_ffff {
            Err(ErrorModel::Message("pointer value does not fit in u32"@))
        } else {
            Ok(le_bytes(v as nat, 4))
        },
        DataModel::Color(v) => Ok(le_bytes(v as nat, 4)),
    }
}

/// Source's folded int: the type byte by value, then only the bytes that still matter.
pub open spec fn source_int_bytes(name: Seq<char>, v: i32) -> Result<Seq<u8>, ErrorModel> {
    let (tag, payload) = if v == 0 {
        (9u8, Seq::<u8>::empty())
    } else if v == 1 {
        (10u8, Seq::<u8>::empty())
    } else if 2 <= v <= 255 {
        (8u8, le_bytes(v as nat, 1))
    } else {
        (2u8, le_bytes(i32_bits(v), 4))
    };
    match cstring_bytes(name) {
        Ok(n) => Ok(seq![tag] + n + payload),
        Err(e) => Err(e),
    }
}

/// The bytes of an entry: type byte, name, value.
pub open spec fn entry_bytes(e: EntryModel, dialect: Dialect) -> Result<Seq<u8>, ErrorModel>
    decreases e, 2int,
{
    if dialect == Dialect::Source && e.data is Int {
        source_int_bytes(e.name, e.data->Int_0)
    } else {
        match tag_byte(e.data, dialect) {
            Err(err) => Err(err),
            Ok(t) => match cstring_bytes(e.name) {
                Err(err) => Err(err),
                Ok(n) => match data_bytes(e.data, dialect) {
                    Err(err) => Err(err),
                    Ok(b) => Ok(seq![t] + n + b),
                },
            },
        }
    }
}

/// The bytes of a run of entries, the first error stopping them.
pub open spec fn entries_bytes(es: Seq<EntryModel>, dialect: Dialect) -> Result<Seq<u8>, ErrorModel>
    decreases es, 0int,
{
    if es.len() == 0 {
        Ok(Seq::empty())
    } else {
        match entry_bytes(es[0], dialect) {
            Err(e) => Err(e),
            Ok(b) => match entries_bytes(es.drop_first(), dialect) {
                Err(e) => Err(e),
                Ok(rest) => Ok(b + rest),
            },
        }
    }
}

/// Appends the `n` little-endian bytes of `v`.
fn push_le(out: &mut Vec<u8>, v: u64, n: usize)
    requires
        n <= 8,
    ensures
        final(out)@ == old(out)@ + le_bytes(v as nat, n as nat),
    decreases n,
{
    if n > 0 {
        out.push((v % 256) as u8);
        let ghost mid = out@;
        push_le(out, v / 256, n - 1);
        assert(out@ =~= old(out)@ + le_bytes(v as nat, n as nat));
    } else {
        assert(out@ =~= old(out)@ + le_bytes(v as nat, n as nat));
    }
}

fn i32_pattern(v: i32) -> (u: u64)
    ensures
        u == i32_bits(v),
{
    if v < 0 { (v as i64 + 0x1_0000_0000) as u64 } else { v as u64 }
}

fn i64_pattern(v: i64) -> (u: u64)
    ensures
        u == i64_bits(v),
{
    if v < 0 { ((v + 1 + i64::MAX) as u64) + 0x8000_0000_0000_0000 } else { v as u64 }
}

/// Appends a NUL-terminated string.
fn write_cstring(out: &mut Vec<u8>, value: &String) -> (r: Result<(), Error>)
    ensures
        match cstring_bytes(value@) {
            Ok(b) => r is Ok && final(out)@ == old(out)@ + b,
            Err(e) => r matches Err(x) && x@ == e,
        },
{
    let bytes = strings::utf8_bytes(value);
    let mut i: usize = 0;
    while i < bytes.len()
        invariant
            i <= bytes@.len(),
            bytes@ == encode_utf8(value@),
            forall|j: int| 0 <= j < i ==> bytes@[j] != 0u8,
        decreases bytes@.len() - i,
    {
        if bytes[i] == 0 {
            assert(bytes@.contains(0u8));
            let msg = String::from_str("strings cannot contain NUL bytes");
            assert(msg@ == "strings cannot contain NUL bytes"@);
            assert(Error::Message(msg)@ == nul_error());
            assert(encode_utf8(value@) == bytes@);
            assert(cstring_bytes(value@) == Err::<Seq<u8>, ErrorModel>(nul_error()));
            return Err(Error::Message(msg));
        }
        i += 1;
    }
    assert(!bytes@.contains(0u8));
    let mut j: usize = 0;
    while j < bytes.len()
        invariant
            j <= bytes@.len(),
            bytes@ == encode_utf8(value@),
            !bytes@.contains(0u8),
            out@ == old(out)@ + bytes@.subrange(0, j as int),
        decreases bytes@.len() - j,
    {
        out.push(bytes[j]);
        assert(bytes@.subrange(0, j + 1) == bytes@.subrange(0, j as int).push(bytes@[j as int]));
        j += 1;
    }
    out.push(0);
    assert(bytes@.subrange(0, bytes@.len() as int) == bytes@);
    assert(out@ =~= old(out)@ + bytes@.push(0u8));
    Ok(())
}

/// The type byte of a value.
fn binary_tag(data: &KvData, dialect: Dialect) -> (r: Result<u8, Error>)
    ensures
        match tag_byte(data@, dialect) {
            Ok(t) => r == Ok::<u8, Error>(t),
            Err(e) => r matches Err(x) && x@ == e,
        },
{
    match data {
        KvData::Compound(_) => Ok(0),
        KvData::String(_) => Ok(1),
        KvData::Int(_) => Ok(2),
        KvData::Float(_) => Ok(3),
        KvData::Pointer(_) => Ok(4),
        KvData::WideString(_) => Ok(5),
        KvData::Color(_) => Ok(6),
        KvData::UInt64(_) => Ok(7),
        KvData::BinaryString(_) => if dialect == Dialect::Vdf {
            Ok(9)
        } else {
            Err(Error::Unsupported("binary string in source kv"))
        },
        KvData::Int64(_) => if dialect == Dialect::Vdf {
            Ok(10)
        } else {
            Err(Error::Unsupported("int64 in source kv"))
        },
    }
}

/// Source folds a small int into the type byte, keeping only the bytes that still matter.
fn write_source_int(out: &mut Vec<u8>, name: &String, value: i32) -> (r: Result<(), Error>)
    ensures
        match source_int_bytes(name@, value) {
            Ok(b) => r is Ok && final(out)@ == old(out)@ + b,
            Err(e) => r matches Err(x) && x@ == e,
        },
{
    let tag: u8 = if value == 0 { 9 } else if value == 1 { 10 } else if 2 <= value && value <= 255 { 8 } else { 2 };
    out.push(tag);
    let ghost after_tag = out@;
    write_cstring(out, name)?;
    let ghost after_name = out@;
    if value == 0 || value == 1 {
    } else if 2 <= value && value <= 255 {
        push_le(out, value as u64, 1);
    } else {
        push_le(out, i32_pattern(value), 4);
    }
    proof {
        let n = cstring_bytes(name@)->Ok_0;
        assert(after_tag == old(out)@.push(tag));
        assert(after_name == after_tag + n);
        if value == 0 || value == 1 {
            assert(out@ =~= old(out)@ + (seq![tag] + n + Seq::<u8>::empty()));
        } else if 2 <= value && value <= 255 {
            assert(out@ =~= old(out)@ + (seq![tag] + n + le_bytes(value as nat, 1)));
        } else {
            assert(out@ =~= old(out)@ + (seq![tag] + n + le_bytes(i32_bits(value), 4)));
        }
    }
    Ok(())
}

/// Appends an entry.
fn write_binary_entry(out: &mut Vec<u8>, entry: &KvEntry, dialect: Dialect) -> (r: Result<(), Error>)
    ensures
        match entry_bytes(entry@, dialect) {
            Ok(b) => r is Ok && final(out)@ == old(out)@ + b,
            Err(e) => r matches Err(x) && x@ == e,
        },
    decreases entry@, 2int,
{
    if let KvData::Int(value) = &entry.data {
        if dialect == Dialect::Source {
            return write_source_int(out, &entry.name, *value);
        }
    }
    let tag = binary_tag(&entry.data, dialect)?;
    out.push(tag);
    let ghost after_tag = out@;
    write_cstring(out, &entry.name)?;
    let ghost after_name = out@;
    write_binary_data(out, &entry.data, dialect)?;
    proof {
        let n = cstring_bytes(entry@.name)->Ok_0;
        let b = data_bytes(entry@.data, dialect)->Ok_0;
        assert(out@ =~= old(out)@ + (seq![tag] + n + b));
    }
    Ok(())
}

/// Appends the entries of a compound and its end marker.
fn write_binary_entries(out: &mut Vec<u8>, entries: &Vec<KvEntry>, dialect: Dialect) -> (r: Result<(), Error>)
    ensures
        match entries_bytes(entries_model(entries@), dialect) {
            Ok(b) => r is Ok && final(out)@ == old(out)@ + b,
            Err(e) => r matches Err(x) && x@ == e,
        },
    decreases entries_model(entries@), 0int,
{
    let ghost es = entries_model(entries@);
    assert(es.subrange(0, es.len() as int) =~= es);
    assert(out@.subrange(old(out)@.len() as int, out@.len() as int) + Seq::<u8>::empty() =~= Seq::<u8>::empty());
    let mut i: usize = 0;
    while i < entries.len()
        invariant
            i <= entries@.len(),
            es == entries_model(entries@),
            entries_bytes(es, dialect) == (match entries_bytes(es.subrange(i as int, es.len() as int), dialect) {
                Ok(b) => Ok(out@.subrange(old(out)@.len() as int, out@.len() as int) + b),
                Err(e) => Err(e),
            }),
            old(out)@.len() <= out@.len(),
            out@.subrange(0, old(out)@.len() as int) == old(out)@,
        decreases entries@.len() - i,
    {
        let ghost before = out@;
        let ghost tail = es.subrange(i as int, es.len() as int);
        assert(tail[0] == entries@[i as int]@);
        assert(tail.drop_first() =~= es.subrange(i + 1, es.len() as int));
        assert(decreases_to!(es => tail[0]));
        write_binary_entry(out, &entries[i], dialect)?;
        proof {
            let b = entry_bytes(tail[0], dialect)->Ok_0;
            assert(out@ == before + b);
            assert(out@.subrange(old(out)@.len() as int, out@.len() as int)
                =~= before.subrange(old(out)@.len() as int, before.len() as int) + b);
            assert(out@.subrange(0, old(out)@.len() as int) =~= old(out)@);
            match entries_bytes(es.subrange(i + 1, es.len() as int), dialect) {
                Ok(rest) => {
                    assert(before.subrange(old(out)@.len() as int, before.len() as int) + (b + rest)
                        =~= out@.subrange(old(out)@.len() as int, out@.len() as int) + rest);
                },
                Err(_) => {},
            }
        }
        i += 1;
    }
    proof {
        assert(es.subrange(es.len() as int, es.len() as int) =~= Seq::<EntryModel>::empty());
        assert(out@ =~= old(out)@ + out@.subrange(old(out)@.len() as int, out@.len() as int));
        assert(out@.subrange(old(out)@.len() as int, out@.len() as int) + Seq::<u8>::empty()
            =~= out@.subrange(old(out)@.len() as int, out@.len() as int));
    }
    Ok(())
}

/// Appends the bytes of a value.
fn write_binary_data(out: &mut Vec<u8>, data: &KvData, dialect: Dialect) -> (r: Result<(), Error>)
    ensures
        match data_bytes(data@, dialect) {
            Ok(b) => r is Ok && final(out)@ == old(out)@ + b,
            Err(e) => r matches Err(x) && x@ == e,
        },
    decreases data@, 1int,
{
    match data {
        KvData::Compound(entries) => {
            proof { crate::types::lemma_compound_model(*entries); }
            write_binary_entries(out, entries, dialect)?;
            let ghost mid = out@;
            let end: u8 = match dialect {
                Dialect::Vdf => 8,
                Dialect::Source => 11,
            };
            out.push(end);
            proof {
                let b = entries_bytes(entries_model(entries@), dialect)->Ok_0;
                assert(out@ =~= old(out)@ + b.push(end_byte(dialect)));
            }
        },
        KvData::String(value) => {
            write_cstring(out, value)?;
        },
        KvData::WideString(value) => {
            if value.len() > 0xffff {
                return Err(Error::Message(String::from_str("wide string is too long")));
            }
            push_le(out, value.len() as u64, 2);
            let ghost mid = out@;
            let mut i: usize = 0;
            while i < value.len()
                invariant
                    i <= value@.len(),
                    out@ == mid + (words_bytes(value@) .subrange(0, 0) + prefix_words_bytes(value@, i as int)),
                decreases value@.len() - i,
            {
                let ghost o = out@;
                push_le(out, value[i] as u64, 2);
                proof { lemma_prefix_words_step(value@, i as int); }
                assert(out@ =~= mid + (words_bytes(value@).subrange(0, 0) + prefix_words_bytes(value@, i + 1)));
                i += 1;
            }
            proof {
                lemma_prefix_words_all(value@);
                assert(out@ =~= old(out)@ + (le_bytes(value@.len(), 2) + words_bytes(value@)));
            }
        },
        KvData::BinaryString(value) => {
            if value.len() > 0xffff_ffff {
                return Err(Error::Message(String::from_str("binary string is too long")));
            }
            push_le(out, value.len() as u64, 4);
            let ghost mid = out@;
            let mut i: usize = 0;
            while i < value.len()
                invariant
                    i <= value@.len(),
                    out@ == mid + value@.subrange(0, i as int),
                decreases value@.len() - i,
            {
                out.push(value[i]);
                assert(value@.subrange(0, i + 1) == value@.subrange(0, i as int).push(value@[i as int]));
                i += 1;
            }
            assert(value@.subrange(0, value@.len() as int) == value@);
            assert(out@ =~= old(out)@ + (le_bytes(value@.len(), 4) + value@));
        },
        KvData::Int(value) => push_le(out, i32_pattern(*value), 4),
        KvData::Int64(value) => push_le(out, i64_pattern(*value), 8),
        KvData::UInt64(value) => push_le(out, *value, 8),
        KvData::Float(value) => push_le(out, *value as u64, 4),
        KvData::Pointer(value) => {
            if *value > 0xffff_ffff {
                return Err(Error::Message(String::from_str("pointer value does not fit in u32")));
            }
            push_le(out, *value as u64, 4);
        },
        KvData::Color(value) => push_le(out, *value as u64, 4),
    }
    Ok(())
}

/// The words' bytes for the first `k` words.
pub open spec fn prefix_words_bytes(w: Seq<u16>, k: int) -> Seq<u8> {
    words_bytes(w.subrange(0, k))
}

proof fn lemma_words_bytes_push(w: Seq<u16>, x: u16)
    ensures
        words_bytes(w.push(x)) == words_bytes(w) + le_bytes(x as nat, 2),
    decreases w.len(),
{
    if w.len() == 0 {
        assert(w.push(x).drop_first() =~= Seq::<u16>::empty());
        assert(words_bytes(Seq::<u16>::empty()) == Seq::<u8>::empty());
        assert(words_bytes(w.push(x)) =~= words_bytes(w) + le_bytes(x as nat, 2));
    } else {
        assert(w.push(x).drop_first() =~= w.drop_first().push(x));
        lemma_words_bytes_push(w.drop_first(), x);
        assert(words_bytes(w.push(x)) =~= words_bytes(w) + le_bytes(x as nat, 2));
    }
}

proof fn lemma_prefix_words_step(w: Seq<u16>, i: int)
    requires
        0 <= i < w.len(),
    ensures
        prefix_words_bytes(w, i + 1) == prefix_words_bytes(w, i) + le_bytes(w[i] as nat, 2),
{
    assert(w.subrange(0, i + 1) =~= w.subrange(0, i).push(w[i]));
    lemma_words_bytes_push(w.subrange(0, i), w[i]);
}

proof fn lemma_prefix_words_all(w: Seq<u16>)
    ensures
        prefix_words_bytes(w, w.len() as int) == words_bytes(w),
{
    assert(w.subrange(0, w.len() as int) =~= w);
}

/// The binary encoding of a single entry named `name` holding `data`.
pub fn binary_to_vec(name: &str, data: &KvData, dialect: Dialect) -> (r: Result<Vec<u8>, Error>)
    ensures
        match entry_bytes(EntryModel { name: name@, data: data@ }, dialect) {
            Ok(b) => r matches Ok(v) && v@ == b,
            Err(e) => r matches Err(x) && x@ == e,
        },
{
    let entry = KvEntry { name: strings::owned(name), data: data.clone() };
    let mut out: Vec<u8> = Vec::new();
    write_binary_entry(&mut out, &entry, dialect)?;
    assert(out@ =~= Seq::<u8>::empty() + out@);
    Ok(out)
}

} // verus!
