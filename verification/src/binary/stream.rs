use vstd::prelude::*;
use crate::binary::Dialect;
use crate::binary::parser::{
    Tag, compound_fail_pos, compound_model, cstring_model, data_fail_pos, data_model,
    entry_fail_pos, entry_model, tag_model, take_model, uint_model, zero_at_or_after,
};
use crate::binary::roundtrip::binary_parse_reads_one_encoding;
use crate::binary::write::entry_bytes;
use crate::error::ErrorModel;
use crate::types::EntryModel;

verus! {

/// A read's result with the position it stops at moved on by `n`.
pub open spec fn shifted<T>(r: Result<(T, int), ErrorModel>, n: int) -> Result<(T, int), ErrorModel> {
    match r {
        Ok((x, p)) => Ok((x, p + n)),
        Err(e) => Err(e),
    }
}

proof fn lemma_zero_shift(pre: Seq<u8>, s: Seq<u8>, i: int)
    requires
        0 <= i,
    ensures
        zero_at_or_after(pre + s, pre.len() + i) == (match zero_at_or_after(s, i) {
            Some(z) => Some(z + pre.len()),
            None => None::<int>,
        }),
    decreases s.len() - i,
{
    let buf = pre + s;
    if i < s.len() {
        assert(buf[pre.len() + i] == s[i]);
        if s[i] != 0 {
            lemma_zero_shift(pre, s, i + 1);
        }
    }
}

proof fn lemma_cstring_shift(pre: Seq<u8>, s: Seq<u8>, i: int)
    requires
        0 <= i,
    ensures
        cstring_model(pre + s, pre.len() + i) == shifted(cstring_model(s, i), pre.len() as int),
{
    lemma_zero_shift(pre, s, i);
    match zero_at_or_after(s, i) {
        Some(z) => {
            lemma_zero_bounds(s, i);
            assert((pre + s).subrange(pre.len() + i, z + pre.len()) =~= s.subrange(i, z));
        },
        None => {},
    }
}

proof fn lemma_zero_bounds(s: Seq<u8>, i: int)
    requires
        zero_at_or_after(s, i) is Some,
    ensures
        i <= zero_at_or_after(s, i)->Some_0 < s.len(),
    decreases s.len() - i,
{
    if 0 <= i < s.len() && s[i] != 0 {
        lemma_zero_bounds(s, i + 1);
    }
}

proof fn lemma_take_shift(pre: Seq<u8>, s: Seq<u8>, i: int, len: int)
    requires
        0 <= i,
    ensures
        take_model(pre + s, pre.len() + i, len) == shifted(take_model(s, i, len), pre.len() as int),
{
    if 0 <= len && i + len <= s.len() {
        assert((pre + s).subrange(pre.len() + i, pre.len() + i + len) =~= s.subrange(i, i + len));
    }
}

proof fn lemma_uint_shift(pre: Seq<u8>, s: Seq<u8>, i: int, n: int)
    requires
        0 <= i,
    ensures
        uint_model(pre + s, pre.len() + i, n) == shifted(uint_model(s, i, n), pre.len() as int),
{
    lemma_take_shift(pre, s, i, n);
}

/// Reading a value after a prefix reads it as without the prefix.
proof fn lemma_data_shift(pre: Seq<u8>, s: Seq<u8>, i: int, d: Dialect, tag: Tag)
    requires
        0 <= i,
    ensures
        data_model(pre + s, pre.len() + i, d, tag) == shifted(data_model(s, i, d, tag), pre.len() as int),
        data_fail_pos(pre + s, pre.len() + i, d, tag) == data_fail_pos(s, i, d, tag) + pre.len(),
    decreases s.len() - i, 2int,
{
    let n = pre.len() as int;
    match tag {
        Tag::Compound => {
            lemma_compound_shift(pre, s, i, d);
        },
        Tag::String => {
            lemma_cstring_shift(pre, s, i);
        },
        Tag::WideString => {
            lemma_uint_shift(pre, s, i, 2);
            match uint_model(s, i, 2) {
                Ok((w, p)) => {
                    lemma_take_shift(pre, s, p, (2 * w) as int);
                },
                Err(_) => {},
            }
        },
        Tag::BinaryString => {
            lemma_uint_shift(pre, s, i, 4);
            match uint_model(s, i, 4) {
                Ok((w, p)) => {
                    lemma_take_shift(pre, s, p, w as int);
                },
                Err(_) => {},
            }
        },
        Tag::Float | Tag::Color | Tag::Int | Tag::Pointer => {
            lemma_uint_shift(pre, s, i, 4);
        },
        Tag::UInt64 | Tag::Int64 => {
            lemma_uint_shift(pre, s, i, 8);
        },
        Tag::Byte => {
            lemma_uint_shift(pre, s, i, 1);
        },
        _ => {},
    }
}

/// Reading an entry after a prefix reads it as without the prefix.
proof fn lemma_entry_shift(pre: Seq<u8>, s: Seq<u8>, i: int, d: Dialect)
    requires
        0 <= i,
    ensures
        entry_model(pre + s, pre.len() + i, d) == shifted(entry_model(s, i, d), pre.len() as int),
        entry_fail_pos(pre + s, pre.len() + i, d) == entry_fail_pos(s, i, d) + pre.len(),
    decreases s.len() - i, 0int,
{
    let buf = pre + s;
    if i < s.len() {
        assert(buf[pre.len() + i] == s[i]);
        lemma_cstring_shift(pre, s, i + 1);
        match cstring_model(s, i + 1) {
            Ok((_, p1)) => {
                if i < p1 <= s.len() {
                    match tag_model(d, s[i]) {
                        Ok(t) => {
                            if t != Tag::End {
                                lemma_data_shift(pre, s, p1, d, t);
                            }
                        },
                        Err(_) => {},
                    }
                }
            },
            Err(_) => {},
        }
    }
}

/// Reading a compound's entries after a prefix reads them as without the prefix.
proof fn lemma_compound_shift(pre: Seq<u8>, s: Seq<u8>, i: int, d: Dialect)
    requires
        0 <= i,
    ensures
        compound_model(pre + s, pre.len() + i, d) == shifted(compound_model(s, i, d), pre.len() as int),
        compound_fail_pos(pre + s, pre.len() + i, d) == compound_fail_pos(s, i, d) + pre.len(),
    decreases s.len() - i, 1int,
{
    lemma_entry_shift(pre, s, i, d);
    match entry_model(s, i, d) {
        Ok((Some(_), p)) => {
            if i < p <= s.len() {
                lemma_compound_shift(pre, s, p, d);
            }
        },
        _ => {},
    }
}

/// Whatever bytes come before a position, a read from there goes as a read of the bytes
/// after them alone would: the same entry or error, and positions moved on by their length.
pub proof fn binary_read_ignores_prefix(pre: Seq<u8>, rest: Seq<u8>, d: Dialect)
    ensures
        entry_model(pre + rest, pre.len() as int, d) == shifted(entry_model(rest, 0, d), pre.len() as int),
        entry_fail_pos(pre + rest, pre.len() as int, d) == entry_fail_pos(rest, 0, d) + pre.len(),
{
    lemma_entry_shift(pre, rest, 0, d);
}

/// One read of bytes that begin with an entry's encoding takes exactly that encoding: it
/// gives the entry and stops at the encoding's end, and the next read goes on as a read of
/// the bytes that follow alone would, at positions moved on by the encoding's length.
pub proof fn binary_parse_consumes_one_encoding(e: EntryModel, d: Dialect, rest: Seq<u8>)
    requires
        entry_bytes(e, d) is Ok,
    ensures
        entry_model(entry_bytes(e, d)->Ok_0 + rest, 0, d)
            == Ok::<(Option<EntryModel>, int), ErrorModel>((Some(e), entry_bytes(e, d)->Ok_0.len() as int)),
        entry_model(entry_bytes(e, d)->Ok_0 + rest, entry_bytes(e, d)->Ok_0.len() as int, d)
            == shifted(entry_model(rest, 0, d), entry_bytes(e, d)->Ok_0.len() as int),
        entry_fail_pos(entry_bytes(e, d)->Ok_0 + rest, entry_bytes(e, d)->Ok_0.len() as int, d)
            == entry_fail_pos(rest, 0, d) + entry_bytes(e, d)->Ok_0.len(),
{
    binary_parse_reads_one_encoding(e, d, rest);
    binary_read_ignores_prefix(entry_bytes(e, d)->Ok_0, rest, d);
}

proof fn lemma_zero_extend(a: Seq<u8>, rest: Seq<u8>, i: int)
    requires
        zero_at_or_after(a, i) is Some,
    ensures
        zero_at_or_after(a + rest, i) == zero_at_or_after(a, i),
    decreases a.len() - i,
{
    if 0 <= i < a.len() {
        assert((a + rest)[i] == a[i]);
        if a[i] != 0 {
            lemma_zero_extend(a, rest, i + 1);
        }
    }
}

proof fn lemma_cstring_extend(a: Seq<u8>, rest: Seq<u8>, i: int)
    requires
        cstring_model(a, i) is Ok,
    ensures
        cstring_model(a + rest, i) == cstring_model(a, i),
{
    lemma_zero_extend(a, rest, i);
    lemma_zero_bounds(a, i);
    let z = zero_at_or_after(a, i)->Some_0;
    assert((a + rest).subrange(i, z) =~= a.subrange(i, z));
}

proof fn lemma_take_extend(a: Seq<u8>, rest: Seq<u8>, i: int, len: int)
    requires
        take_model(a, i, len) is Ok,
    ensures
        take_model(a + rest, i, len) == take_model(a, i, len),
{
    assert((a + rest).subrange(i, i + len) =~= a.subrange(i, i + len));
}

/// A value that reads from `a` reads the same with more bytes after `a`.
proof fn lemma_data_extend(a: Seq<u8>, rest: Seq<u8>, i: int, d: Dialect, tag: Tag)
    requires
        0 <= i,
        data_model(a, i, d, tag) is Ok,
    ensures
        data_model(a + rest, i, d, tag) == data_model(a, i, d, tag),
    decreases a.len() - i, 2int,
{
    match tag {
        Tag::Compound => {
            lemma_compound_extend(a, rest, i, d);
        },
        Tag::String => {
            lemma_cstring_extend(a, rest, i);
        },
        Tag::WideString => {
            lemma_take_extend(a, rest, i, 2);
            let (w, p) = uint_model(a, i, 2)->Ok_0;
            if w != 0 {
                lemma_take_extend(a, rest, p, (2 * w) as int);
            }
        },
        Tag::BinaryString => {
            lemma_take_extend(a, rest, i, 4);
            let (w, p) = uint_model(a, i, 4)->Ok_0;
            lemma_take_extend(a, rest, p, w as int);
        },
        Tag::Float | Tag::Color | Tag::Int | Tag::Pointer => {
            lemma_take_extend(a, rest, i, 4);
        },
        Tag::UInt64 | Tag::Int64 => {
            lemma_take_extend(a, rest, i, 8);
        },
        Tag::Byte => {
            lemma_take_extend(a, rest, i, 1);
        },
        _ => {},
    }
}

/// An entry that reads from `a` reads the same with more bytes after `a`.
proof fn lemma_entry_extend(a: Seq<u8>, rest: Seq<u8>, i: int, d: Dialect)
    requires
        0 <= i,
        entry_model(a, i, d) is Ok,
    ensures
        entry_model(a + rest, i, d) == entry_model(a, i, d),
    decreases a.len() - i, 0int,
{
    assert((a + rest)[i] == a[i]);
    match tag_model(d, a[i]) {
        Ok(t) => {
            if t != Tag::End {
                lemma_cstring_extend(a, rest, i + 1);
                let p1 = cstring_model(a, i + 1)->Ok_0.1;
                lemma_data_extend(a, rest, p1, d, t);
            }
        },
        Err(_) => {},
    }
}

/// Entries that read from `a` read the same with more bytes after `a`.
proof fn lemma_compound_extend(a: Seq<u8>, rest: Seq<u8>, i: int, d: Dialect)
    requires
        0 <= i,
        compound_model(a, i, d) is Ok,
    ensures
        compound_model(a + rest, i, d) == compound_model(a, i, d),
    decreases a.len() - i, 1int,
{
    lemma_entry_extend(a, rest, i, d);
    match entry_model(a, i, d) {
        Ok((Some(_), p)) => {
            lemma_compound_extend(a, rest, p, d);
        },
        _ => {},
    }
}

/// A read takes exactly one complete encoding of an entry, whoever wrote it: where a read of
/// `a` alone gives an entry and takes all of `a`, a read of `a` followed by any bytes gives
/// the same entry and stops at the end of `a`, and the next read goes on as a read of the
/// bytes that follow alone would, at positions moved on by the length of `a`.
pub proof fn binary_read_takes_one_encoding(a: Seq<u8>, e: EntryModel, rest: Seq<u8>, d: Dialect)
    requires
        entry_model(a, 0, d) == Ok::<(Option<EntryModel>, int), ErrorModel>((Some(e), a.len() as int)),
    ensures
        entry_model(a + rest, 0, d) == Ok::<(Option<EntryModel>, int), ErrorModel>((Some(e), a.len() as int)),
        entry_model(a + rest, a.len() as int, d) == shifted(entry_model(rest, 0, d), a.len() as int),
        entry_fail_pos(a + rest, a.len() as int, d) == entry_fail_pos(rest, 0, d) + a.len(),
{
    lemma_entry_extend(a, rest, 0, d);
    binary_read_ignores_prefix(a, rest, d);
}

} // verus!
