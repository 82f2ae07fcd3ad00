use vstd::prelude::*;
use vstd::utf8::{encode_utf8, decode_utf8, valid_utf8};
use crate::binary::Dialect;
use crate::binary::parser::{
    Tag, as_i32, as_i64, compound_model, cstring_model, data_model, entry_model, le_value, pow256,
    tag_model, take_model, uint_model, words_model, zero_at_or_after,
};
use crate::binary::write::{
    cstring_bytes, data_bytes, end_byte, entries_bytes, entry_bytes, i32_bits, i64_bits, le_bytes,
    tag_byte, words_bytes,
};
use crate::error::ErrorModel;
use crate::types::{DataModel, EntryModel};

verus! {

broadcast use vstd::utf8::encode_utf8_valid_utf8, vstd::utf8::encode_utf8_decode_utf8;

/// Splits a match of `a + b` in `buf` at `pos` into a match of each part.
proof fn lemma_split(buf: Seq<u8>, pos: int, a: Seq<u8>, b: Seq<u8>)
    requires
        0 <= pos,
        pos + a.len() + b.len() <= buf.len(),
        buf.subrange(pos, pos + (a + b).len()) == a + b,
    ensures
        buf.subrange(pos, pos + a.len()) == a,
        buf.subrange(pos + a.len(), pos + a.len() + b.len()) == b,
{
    assert(buf.subrange(pos, pos + a.len()) =~= (a + b).subrange(0, a.len() as int));
    assert(buf.subrange(pos + a.len(), pos + a.len() + b.len()) =~= (a + b).subrange(a.len() as int, (a + b).len() as int));
    assert((a + b).subrange(0, a.len() as int) =~= a);
    assert((a + b).subrange(a.len() as int, (a + b).len() as int) =~= b);
}

pub proof fn lemma_le_len(v: nat, n: nat)
    ensures
        le_bytes(v, n).len() == n,
    decreases n,
{
    if n > 0 {
        lemma_le_len(v / 256, (n - 1) as nat);
    }
}

/// Little-endian bytes read back as the value they were written from.
pub proof fn lemma_le_roundtrip(v: nat, n: nat)
    requires
        v < pow256(n),
    ensures
        le_bytes(v, n).len() == n,
        le_value(le_bytes(v, n)) == v,
    decreases n,
{
    lemma_le_len(v, n);
    if n > 0 {
        assert(v / 256 < pow256((n - 1) as nat));
        lemma_le_roundtrip(v / 256, (n - 1) as nat);
        let s = le_bytes(v, n);
        assert(s.drop_first() =~= le_bytes(v / 256, (n - 1) as nat));
    }
}

proof fn lemma_pow_values()
    ensures
        pow256(1) == 0x100,
        pow256(2) == 0x1_0000,
        pow256(4) == 0x1_0000_0000,
        pow256(8) == 0x1_0000_0000_0000_0000,
{
    reveal_with_fuel(pow256, 9);
}

/// An unsigned value written in `n` bytes at `pos` reads back.
proof fn lemma_uint_at(buf: Seq<u8>, pos: int, v: nat, n: nat)
    requires
        0 <= pos,
        v < pow256(n),
        pos + n <= buf.len(),
        buf.subrange(pos, pos + n) == le_bytes(v, n),
    ensures
        uint_model(buf, pos, n as int) == Ok::<(nat, int), ErrorModel>((v, pos + n)),
{
    lemma_le_roundtrip(v, n);
}

proof fn lemma_zero_skip(buf: Seq<u8>, pos: int, end: int)
    requires
        0 <= pos <= end < buf.len(),
        buf[end] == 0,
        forall|j: int| pos <= j < end ==> buf[j] != 0,
    ensures
        zero_at_or_after(buf, pos) == Some(end),
    decreases end - pos,
{
    if pos < end {
        lemma_zero_skip(buf, pos + 1, end);
    }
}

/// A written NUL-terminated string reads back.
proof fn lemma_cstring_at(buf: Seq<u8>, pos: int, s: Seq<char>)
    requires
        0 <= pos,
        cstring_bytes(s) is Ok,
        pos + cstring_bytes(s)->Ok_0.len() <= buf.len(),
        buf.subrange(pos, pos + cstring_bytes(s)->Ok_0.len()) == cstring_bytes(s)->Ok_0,
    ensures
        cstring_model(buf, pos) == Ok::<(Seq<char>, int), ErrorModel>((s, pos + cstring_bytes(s)->Ok_0.len())),
{
    let enc = encode_utf8(s);
    let b = enc.push(0u8);
    let end = pos + enc.len();
    assert forall|j: int| pos <= j < end implies buf[j] != 0 by {
        assert(buf[j] == b[j - pos]);
        assert(b[j - pos] == enc[j - pos]);
        if enc[j - pos] == 0u8 {
            assert(enc.contains(0u8));
        }
    }
    assert(buf[end] == b[enc.len() as int]);
    lemma_zero_skip(buf, pos, end);
    assert(buf.subrange(pos, end) =~= enc);
    assert(valid_utf8(enc));
    assert(decode_utf8(enc) == s);
}

/// Two's complement patterns read back as the signed values.
proof fn lemma_signed_roundtrip()
    ensures
        forall|v: i32| i32_bits(v) < 0x1_0000_0000 && #[trigger] as_i32(i32_bits(v)) == v,
        forall|v: i64| i64_bits(v) < 0x1_0000_0000_0000_0000 && #[trigger] as_i64(i64_bits(v)) == v,
{
}

proof fn lemma_words_bytes_len(w: Seq<u16>)
    ensures
        words_bytes(w).len() == 2 * w.len(),
    decreases w.len(),
{
    if w.len() > 0 {
        lemma_le_len(w[0] as nat, 2);
        lemma_words_bytes_len(w.drop_first());
    }
}

proof fn lemma_words_bytes_index(w: Seq<u16>, j: int)
    requires
        0 <= j < w.len(),
    ensures
        words_bytes(w).len() == 2 * w.len(),
        words_bytes(w)[2 * j] as nat + 256 * (words_bytes(w)[2 * j + 1] as nat) == w[j] as nat,
    decreases w.len(),
{
    lemma_words_bytes_len(w);
    lemma_le_len(w[0] as nat, 2);
    lemma_words_bytes_len(w.drop_first());
    if j == 0 {
        lemma_pow_values();
        lemma_le_roundtrip(w[0] as nat, 2);
        let le = le_bytes(w[0] as nat, 2);
        assert(le.drop_first().drop_first().len() == 0);
        assert(le_value(le) == le[0] as nat + 256 * le_value(le.drop_first()));
        assert(le_value(le.drop_first()) == le[1] as nat + 256 * le_value(le.drop_first().drop_first()));
        assert(words_bytes(w)[0] == le[0]);
        assert(words_bytes(w)[1] == le[1]);
    } else {
        lemma_words_bytes_index(w.drop_first(), j - 1);
        assert(words_bytes(w)[2 * j] == words_bytes(w.drop_first())[2 * (j - 1)]);
        assert(words_bytes(w)[2 * j + 1] == words_bytes(w.drop_first())[2 * (j - 1) + 1]);
    }
}

/// Written words read back.
proof fn lemma_words_roundtrip(w: Seq<u16>)
    ensures
        words_bytes(w).len() == 2 * w.len(),
        words_model(words_bytes(w)) == w,
{
    lemma_words_bytes_len(w);
    let b = words_bytes(w);
    assert forall|j: int| 0 <= j < w.len() implies #[trigger] words_model(b)[j] == w[j] by {
        lemma_words_bytes_index(w, j);
    }
    assert(words_model(b) =~= w);
}

/// The bytes written for a value (other than Source's folded int) read back after its
/// type byte and name.
proof fn lemma_data_roundtrip(data: DataModel, d: Dialect, buf: Seq<u8>, pos: int)
    requires
        0 <= pos,
        tag_byte(data, d) is Ok,
        data_bytes(data, d) is Ok,
        pos + data_bytes(data, d)->Ok_0.len() <= buf.len(),
        buf.subrange(pos, pos + data_bytes(data, d)->Ok_0.len()) == data_bytes(data, d)->Ok_0,
    ensures
        tag_model(d, tag_byte(data, d)->Ok_0) matches Ok(t) && t != Tag::End
            && data_model(buf, pos, d, t) == Ok::<(DataModel, int), ErrorModel>((data, pos + data_bytes(data, d)->Ok_0.len())),
    decreases data, 1int,
{
    lemma_pow_values();
    lemma_signed_roundtrip();
    let b = data_bytes(data, d)->Ok_0;
    match data {
        DataModel::Compound(es) => {
            let eb = entries_bytes(es, d)->Ok_0;
            assert(b == eb.push(end_byte(d)));
            lemma_entries_roundtrip(es, d, buf, pos);
            assert(tag_model(d, 0u8) == Ok::<Tag, ErrorModel>(Tag::Compound));
            assert(data_model(buf, pos, d, Tag::Compound) == Ok::<(DataModel, int), ErrorModel>((data, pos + b.len())));
        },
        DataModel::Str(s) => {
            lemma_cstring_at(buf, pos, s);
        },
        DataModel::Wide(w) => {
            let lb = le_bytes(w.len(), 2);
            let wb = words_bytes(w);
            lemma_le_len(w.len(), 2);
            lemma_words_roundtrip(w);
            lemma_split(buf, pos, lb, wb);
            lemma_uint_at(buf, pos, w.len(), 2);
            if w.len() == 0 {
                assert(w =~= Seq::<u16>::empty());
            } else {
                assert(take_model(buf, pos + 2, (2 * w.len()) as int)
                    == Ok::<(Seq<u8>, int), ErrorModel>((wb, pos + 2 + 2 * w.len())));
            }
        },
        DataModel::Bytes(v) => {
            let lb = le_bytes(v.len(), 4);
            lemma_le_len(v.len(), 4);
            lemma_split(buf, pos, lb, v);
            lemma_uint_at(buf, pos, v.len(), 4);
        },
        DataModel::Int(v) => {
            lemma_le_len(i32_bits(v), 4);
            lemma_uint_at(buf, pos, i32_bits(v), 4);
        },
        DataModel::Int64(v) => {
            lemma_le_len(i64_bits(v), 8);
            lemma_uint_at(buf, pos, i64_bits(v), 8);
        },
        DataModel::UInt64(v) => {
            lemma_le_len(v as nat, 8);
            lemma_uint_at(buf, pos, v as nat, 8);
        },
        DataModel::Float(v) => {
            lemma_le_len(v as nat, 4);
            lemma_uint_at(buf, pos, v as nat, 4);
        },
        DataModel::Pointer(v) => {
            lemma_le_len(v as nat, 4);
            lemma_uint_at(buf, pos, v as nat, 4);
        },
        DataModel::Color(v) => {
            lemma_le_len(v as nat, 4);
            lemma_uint_at(buf, pos, v as nat, 4);
        },
    }
}

/// The bytes written for an entry read back as the entry.
proof fn lemma_entry_roundtrip(e: EntryModel, d: Dialect, buf: Seq<u8>, pos: int)
    requires
        0 <= pos,
        entry_bytes(e, d) is Ok,
        pos + entry_bytes(e, d)->Ok_0.len() <= buf.len(),
        buf.subrange(pos, pos + entry_bytes(e, d)->Ok_0.len()) == entry_bytes(e, d)->Ok_0,
    ensures
        entry_bytes(e, d)->Ok_0.len() >= 2,
        entry_model(buf, pos, d) == Ok::<(Option<EntryModel>, int), ErrorModel>((Some(e), pos + entry_bytes(e, d)->Ok_0.len())),
    decreases e, 2int,
{
    lemma_pow_values();
    lemma_signed_roundtrip();
    let b = entry_bytes(e, d)->Ok_0;
    let n = cstring_bytes(e.name)->Ok_0;
    assert(n.len() >= 1);
    if d == Dialect::Source && e.data is Int {
        let v = e.data->Int_0;
        let (tag, payload) = if v == 0 {
            (9u8, Seq::<u8>::empty())
        } else if v == 1 {
            (10u8, Seq::<u8>::empty())
        } else if 2 <= v <= 255 {
            (8u8, le_bytes(v as nat, 1))
        } else {
            (2u8, le_bytes(i32_bits(v), 4))
        };
        assert(b == seq![tag] + n + payload);
        lemma_split(buf, pos, seq![tag] + n, payload);
        lemma_split(buf, pos, seq![tag], n);
        assert(buf.subrange(pos, pos + 1)[0] == buf[pos]);
        assert(buf[pos] == tag);
        lemma_cstring_at(buf, pos + 1, e.name);
        let p1 = pos + 1 + n.len();
        if v == 0 || v == 1 {
        } else if 2 <= v <= 255 {
            lemma_le_len(v as nat, 1);
            lemma_uint_at(buf, p1, v as nat, 1);
        } else {
            lemma_le_len(i32_bits(v), 4);
            lemma_uint_at(buf, p1, i32_bits(v), 4);
        }
    } else {
        let t = tag_byte(e.data, d)->Ok_0;
        let db = data_bytes(e.data, d)->Ok_0;
        assert(b == seq![t] + n + db);
        lemma_split(buf, pos, seq![t] + n, db);
        lemma_split(buf, pos, seq![t], n);
        assert(buf.subrange(pos, pos + 1)[0] == buf[pos]);
        assert(buf[pos] == t);
        lemma_cstring_at(buf, pos + 1, e.name);
        lemma_data_roundtrip(e.data, d, buf, pos + 1 + n.len());
    }
}

/// The bytes written for a run of entries, followed by an end marker, read back as the
/// compound's entries.
proof fn lemma_entries_roundtrip(es: Seq<EntryModel>, d: Dialect, buf: Seq<u8>, pos: int)
    requires
        0 <= pos,
        entries_bytes(es, d) is Ok,
        pos + entries_bytes(es, d)->Ok_0.len() + 1 <= buf.len(),
        buf.subrange(pos, pos + entries_bytes(es, d)->Ok_0.len() + 1)
            == entries_bytes(es, d)->Ok_0.push(end_byte(d)),
    ensures
        compound_model(buf, pos, d) == Ok::<(Seq<EntryModel>, int), ErrorModel>((es, pos + entries_bytes(es, d)->Ok_0.len() + 1)),
    decreases es, 0int,
{
    let b = entries_bytes(es, d)->Ok_0;
    if es.len() == 0 {
        assert(buf[pos] == b.push(end_byte(d))[0]);
        assert(es =~= Seq::<EntryModel>::empty());
    } else {
        let b0 = entry_bytes(es[0], d)->Ok_0;
        let rest = entries_bytes(es.drop_first(), d)->Ok_0;
        assert(b == b0 + rest);
        assert(b.push(end_byte(d)) =~= b0 + rest.push(end_byte(d)));
        lemma_split(buf, pos, b0, rest.push(end_byte(d)));
        lemma_entry_roundtrip(es[0], d, buf, pos);
        lemma_entries_roundtrip(es.drop_first(), d, buf, pos + b0.len());
        assert(seq![es[0]] + es.drop_first() =~= es);
    }
}

/// Reading back the bytes written for an entry gives that entry, and reads all of them:
/// whatever the dialect, wherever writing succeeds.
pub proof fn binary_roundtrip(e: EntryModel, d: Dialect)
    requires
        entry_bytes(e, d) is Ok,
    ensures
        entry_model(entry_bytes(e, d)->Ok_0, 0, d)
            == Ok::<(Option<EntryModel>, int), ErrorModel>((Some(e), entry_bytes(e, d)->Ok_0.len() as int)),
{
    let b = entry_bytes(e, d)->Ok_0;
    assert(b.subrange(0, b.len() as int) =~= b);
    lemma_entry_roundtrip(e, d, b, 0);
}

/// One read of bytes that begin with an entry's encoding gives that entry and stops just
/// after the encoding, whatever bytes follow it; with nothing after it, the next read finds
/// the end of the bytes.
pub proof fn binary_parse_reads_one_encoding(e: EntryModel, d: Dialect, rest: Seq<u8>)
    requires
        entry_bytes(e, d) is Ok,
    ensures
        entry_model(entry_bytes(e, d)->Ok_0 + rest, 0, d)
            == Ok::<(Option<EntryModel>, int), ErrorModel>((Some(e), entry_bytes(e, d)->Ok_0.len() as int)),
        entry_model(entry_bytes(e, d)->Ok_0, entry_bytes(e, d)->Ok_0.len() as int, d)
            == Err::<(Option<EntryModel>, int), ErrorModel>(ErrorModel::UnexpectedEof),
{
    let b = entry_bytes(e, d)->Ok_0;
    let buf = b + rest;
    assert(buf.subrange(0, b.len() as int) =~= b);
    lemma_entry_roundtrip(e, d, buf, 0);
}

/// Text without a NUL character (code 0).
pub open spec fn nul_free(s: Seq<char>) -> bool {
    forall|i: int| 0 <= i < s.len() ==> (s[i] as u32) != 0
}

/// A value the binary writer accepts in `dialect`: no NUL in any name or string, wide
/// strings of at most 65535 words, binary strings of at most `u32::MAX` bytes, pointers
/// that fit in 32 bits, and neither binary strings nor 64-bit ints in the Source dialect.
pub open spec fn binary_writable(data: DataModel, dialect: Dialect) -> bool
    decreases data, 1int,
{
    match data {
        DataModel::Compound(es) => entries_binary_writable(es, dialect),
        DataModel::Str(s) => nul_free(s),
        DataModel::Wide(w) => w.len() <= 0xffff,
        DataModel::Bytes(b) => b.len() <= 0xffff_ffff && dialect == Dialect::Vdf,
        DataModel::Int64(_) => dialect == Dialect::Vdf,
        DataModel::Pointer(v) => v <= 0xffff_ffff,
        _ => true,
    }
}

/// Every entry of `es` has a name without NUL and a value the writer accepts.
pub open spec fn entries_binary_writable(es: Seq<EntryModel>, dialect: Dialect) -> bool
    decreases es, 0int,
{
    es.len() == 0 || (nul_free(es[0].name) && binary_writable(es[0].data, dialect)
        && entries_binary_writable(es.drop_first(), dialect))
}

proof fn lemma_scalar_nonzero(c: u32)
    requires
        c != 0,
    ensures
        !vstd::utf8::encode_scalar(c).contains(0u8),
{
    let enc = vstd::utf8::encode_scalar(c);
    assert forall|i: int| 0 <= i < enc.len() implies enc[i] != 0u8 by {
        if c <= 0x7F {
            assert(vstd::utf8::leading_byte_width_1(c) != 0) by (bit_vector)
                requires
                    c != 0 && c <= 0x7F,
            ;
        } else {
            assert(vstd::utf8::leading_byte_width_2(c) != 0) by (bit_vector);
            assert(vstd::utf8::leading_byte_width_3(c) != 0) by (bit_vector);
            assert(vstd::utf8::leading_byte_width_4(c) != 0) by (bit_vector);
            assert(vstd::utf8::last_continuation_byte(c) != 0) by (bit_vector);
            assert(vstd::utf8::second_last_continuation_byte(c) != 0) by (bit_vector);
            assert(vstd::utf8::third_last_continuation_byte(c) != 0) by (bit_vector);
        }
    }
}

proof fn lemma_nul_free_encoding(s: Seq<char>)
    requires
        nul_free(s),
    ensures
        !encode_utf8(s).contains(0u8),
    decreases s.len(),
{
    if s.len() > 0 {
        assert((s[0] as u32) != 0);
        lemma_scalar_nonzero(s[0] as u32);
        assert(nul_free(s.drop_first())) by {
            assert forall|i: int| 0 <= i < s.drop_first().len() implies (s.drop_first()[i] as u32) != 0 by {
                assert(s.drop_first()[i] == s[i + 1]);
            }
        }
        lemma_nul_free_encoding(s.drop_first());
        let a = vstd::utf8::encode_scalar(s[0] as u32);
        let b = encode_utf8(s.drop_first());
        assert forall|i: int| 0 <= i < (a + b).len() implies (a + b)[i] != 0u8 by {
            if i < a.len() {
                assert((a + b)[i] == a[i]);
            } else {
                assert((a + b)[i] == b[i - a.len()]);
            }
        }
    }
}

/// The binary writer succeeds on every entry whose name has no NUL and whose value it
/// accepts (`binary_writable`).
pub proof fn binary_writer_succeeds(e: EntryModel, d: Dialect)
    requires
        nul_free(e.name),
        binary_writable(e.data, d),
    ensures
        entry_bytes(e, d) is Ok,
    decreases e, 2int,
{
    lemma_nul_free_encoding(e.name);
    lemma_data_writable(e.data, d);
}

proof fn lemma_data_writable(data: DataModel, d: Dialect)
    requires
        binary_writable(data, d),
    ensures
        data_bytes(data, d) is Ok,
        tag_byte(data, d) is Ok,
    decreases data, 1int,
{
    match data {
        DataModel::Compound(es) => lemma_entries_writable(es, d),
        DataModel::Str(s) => lemma_nul_free_encoding(s),
        _ => {},
    }
}

proof fn lemma_entries_writable(es: Seq<EntryModel>, d: Dialect)
    requires
        entries_binary_writable(es, d),
    ensures
        entries_bytes(es, d) is Ok,
    decreases es, 0int,
{
    if es.len() > 0 {
        binary_writer_succeeds(es[0], d);
        lemma_entries_writable(es.drop_first(), d);
    }
}

/// An entry whose name has no NUL and whose value the writer accepts is written, and its
/// bytes read back as that entry, all of them: the next read finds the end of the bytes.
pub proof fn binary_writable_roundtrip(e: EntryModel, d: Dialect)
    requires
        nul_free(e.name),
        binary_writable(e.data, d),
    ensures
        entry_bytes(e, d) is Ok,
        entry_model(entry_bytes(e, d)->Ok_0, 0, d)
            == Ok::<(Option<EntryModel>, int), ErrorModel>((Some(e), entry_bytes(e, d)->Ok_0.len() as int)),
        entry_model(entry_bytes(e, d)->Ok_0, entry_bytes(e, d)->Ok_0.len() as int, d)
            == Err::<(Option<EntryModel>, int), ErrorModel>(ErrorModel::UnexpectedEof),
{
    binary_writer_succeeds(e, d);
    binary_roundtrip(e, d);
}

/// In the Source dialect, type byte 8 holds an int in one byte read unsigned: a name and
/// any byte `b` after it read as `Int(b)`, from 0 to 255, taking just those bytes; and the
/// writer gives every int from 2 to 255 exactly that form.
pub proof fn source_byte_ints(name: Seq<char>, b: u8)
    requires
        nul_free(name),
    ensures
        entry_model(seq![8u8] + encode_utf8(name) + seq![0u8, b], 0, Dialect::Source)
            == Ok::<(Option<EntryModel>, int), ErrorModel>((
                Some(EntryModel { name, data: DataModel::Int(b as i32) }),
                (encode_utf8(name).len() + 3) as int,
            )),
        2 <= b ==> entry_bytes(EntryModel { name, data: DataModel::Int(b as i32) }, Dialect::Source)
            == Ok::<Seq<u8>, ErrorModel>(seq![8u8] + encode_utf8(name) + seq![0u8, b]),
{
    let enc = encode_utf8(name);
    let buf = seq![8u8] + enc + seq![0u8, b];
    lemma_nul_free_encoding(name);
    assert(cstring_bytes(name) == Ok::<Seq<u8>, ErrorModel>(enc.push(0u8)));
    assert(buf.subrange(1, (enc.len() + 2) as int) =~= enc.push(0u8));
    lemma_cstring_at(buf, 1, name);
    let p1 = (enc.len() + 2) as int;
    assert(le_bytes(b as nat, 1) =~= seq![b]) by {
        reveal_with_fuel(le_bytes, 2);
        assert(((b as nat) % 256) as u8 == b);
    }
    assert(buf.subrange(p1, p1 + 1) =~= seq![b]);
    lemma_pow_values();
    lemma_uint_at(buf, p1, b as nat, 1);
    assert(tag_model(Dialect::Source, buf[0]) == Ok::<Tag, ErrorModel>(Tag::Byte));
    if 2 <= b {
        assert(seq![8u8] + enc.push(0u8) + le_bytes(b as nat, 1) =~= buf);
    }
}

} // verus!
