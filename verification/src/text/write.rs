use vstd::prelude::*;
use crate::error::{Error, ErrorModel};
use crate::number::{self, decimal, hex_digits, signed_decimal};
use crate::strings;
use crate::types::{DataModel, EntryModel, KvData, KvEntry, data_size, entries_model, entries_size, lemma_entries_size};

verus! {

/// How a character is written inside quotes.
pub open spec fn escape_char(c: char) -> Seq<char> {
    if c == '"' { seq!['\\', '"'] }
    else if c == '\n' { seq!['\\', 'n'] }
    else if c == '\r' { seq!['\\', 'r'] }
    else if c == '\t' { seq!['\\', 't'] }
    else if c == '\\' { seq!['\\', '\\'] }
    else { seq![c] }
}

/// Text with the characters that need it escaped.
pub open spec fn escape_text(s: Seq<char>) -> Seq<char>
    decreases s.len(),
{
    if s.len() == 0 { Seq::empty() } else { escape_char(s[0]) + escape_text(s.drop_first()) }
}

/// Text in quotes, escaped.
pub open spec fn quoted(s: Seq<char>) -> Seq<char> {
    seq!['"'] + escape_text(s) + seq!['"']
}

/// `depth` tabs.
pub open spec fn indent(depth: nat) -> Seq<char> {
    Seq::new(depth, |i: int| '\t')
}

/// The characters that UTF-16 words encode (`String::from_utf16`), if they are valid UTF-16.
pub open spec fn decode_utf16(w: Seq<u16>) -> Option<Seq<char>>
    decreases w.len(),
{
    if w.len() == 0 {
        Some(Seq::empty())
    } else if w[0] < 0xD800 || w[0] > 0xDFFF {
        match decode_utf16(w.drop_first()) {
            Some(rest) => Some(seq![(w[0] as u32) as char] + rest),
            None => None,
        }
    } else if w[0] <= 0xDBFF && w.len() >= 2 && 0xDC00 <= w[1] <= 0xDFFF {
        let v = (0x10000 + (w[0] - 0xD800) * 0x400 + (w[1] - 0xDC00)) as u32;
        match decode_utf16(w.subrange(2, w.len() as int)) {
            Some(rest) => Some(seq![v as char] + rest),
            None => None,
        }
    } else {
        None
    }
}

/// The first text given for the float with these bits.
pub open spec fn float_text_of(table: Seq<(u32, Seq<char>)>, bits: u32) -> Option<Seq<char>>
    decreases table.len(),
{
    if table.len() == 0 {
        None
    } else if table[0].0 == bits {
        Some(table[0].1)
    } else {
        float_text_of(table.drop_first(), bits)
    }
}

/// The quoted text of a value that is not a compound. A float is written as the text
/// `floats` gives for its bits (`Display` of the `f32`).
pub open spec fn value_text(d: DataModel, floats: Seq<(u32, Seq<char>)>) -> Result<Seq<char>, ErrorModel> {
    match d {
        DataModel::Str(s) => Ok(quoted(s)),
        DataModel::Wide(w) => match decode_utf16(w) {
            Some(s) => Ok(quoted(s)),
            None => Err(ErrorModel::InvalidUtf16),
        },
        DataModel::Bytes(_) => Err(ErrorModel::Unsupported("binary string in text output"@)),
        DataModel::Int(v) => Ok(seq!['"'] + signed_decimal(v as int) + seq!['"']),
        DataModel::Int64(v) => Ok(seq!['"'] + signed_decimal(v as int) + seq!['"']),
        DataModel::UInt64(v) => Ok(seq!['"', '0', 'x'] + hex_digits(v as nat, 16) + seq!['"']),
        DataModel::Float(b) => match float_text_of(floats, b) {
            Some(t) => Ok(seq!['"'] + t + seq!['"']),
            None => Err(ErrorModel::UnexpectedToken),
        },
        DataModel::Pointer(v) => Ok(seq!['"'] + decimal(v as nat) + seq!['"']),
        DataModel::Color(v) => Ok(seq!['"'] + decimal(v as nat) + seq!['"']),
        DataModel::Compound(_) => Err(ErrorModel::UnexpectedToken),
    }
}

/// The text of an entry at nesting `depth`.
pub open spec fn entry_text(e: EntryModel, depth: nat, floats: Seq<(u32, Seq<char>)>) -> Result<Seq<char>, ErrorModel>
    decreases e, 1int,
{
    let head = indent(depth) + quoted(e.name);
    match e.data {
        DataModel::Compound(es) => match entries_text(es, depth + 1, floats) {
            Ok(body) => Ok(head + seq!['\n'] + indent(depth) + seq!['{', '\n'] + body + indent(depth) + seq!['}', '\n']),
            Err(err) => Err(err),
        },
        d => match value_text(d, floats) {
            Ok(v) => Ok(head + seq!['\t'] + v + seq!['\n']),
            Err(err) => Err(err),
        },
    }
}

/// The text of a run of entries, the first error stopping them.
pub open spec fn entries_text(es: Seq<EntryModel>, depth: nat, floats: Seq<(u32, Seq<char>)>) -> Result<Seq<char>, ErrorModel>
    decreases es, 0int,
{
    if es.len() == 0 {
        Ok(Seq::empty())
    } else {
        match entry_text(es[0], depth, floats) {
            Err(e) => Err(e),
            Ok(t) => match entries_text(es.drop_first(), depth, floats) {
                Err(e) => Err(e),
                Ok(rest) => Ok(t + rest),
            },
        }
    }
}

/// How deep compounds nest in a value (0 for a value that is not a compound).
pub open spec fn nesting(d: DataModel) -> nat
    decreases d, 1int,
{
    match d {
        DataModel::Compound(es) => 1 + entries_nesting(es),
        _ => 0,
    }
}

/// The deepest nesting among entries' values.
pub open spec fn entries_nesting(es: Seq<EntryModel>) -> nat
    decreases es, 0int,
{
    if es.len() == 0 {
        0
    } else {
        let a = nesting(es[0].data);
        let b = entries_nesting(es.drop_first());
        if a >= b { a } else { b }
    }
}

pub proof fn lemma_entries_nesting(es: Seq<EntryModel>)
    ensures
        forall|i: int| 0 <= i < es.len() ==> nesting(#[trigger] es[i].data) <= entries_nesting(es),
    decreases es.len(),
{
    if es.len() > 0 {
        lemma_entries_nesting(es.drop_first());
        assert forall|i: int| 0 <= i < es.len() implies nesting(#[trigger] es[i].data) <= entries_nesting(es) by {
            if i > 0 {
                assert(es[i] == es.drop_first()[i - 1]);
            }
        }
    }
}

/// The bits of the floats in a value, in the order they are written.
pub open spec fn float_leaves(d: DataModel) -> Seq<u32>
    decreases d, 1int,
{
    match d {
        DataModel::Float(b) => seq![b],
        DataModel::Compound(es) => entries_float_leaves(es),
        _ => Seq::empty(),
    }
}

/// The bits of the floats in a run of entries, in order.
pub open spec fn entries_float_leaves(es: Seq<EntryModel>) -> Seq<u32>
    decreases es, 0int,
{
    if es.len() == 0 {
        Seq::empty()
    } else {
        float_leaves(es[0].data) + entries_float_leaves(es.drop_first())
    }
}

fn push_quoted(out: &mut String, value: &String)
    ensures
        final(out)@ == old(out)@ + quoted(value@),
{
    let chars = strings::chars_of(value.as_str());
    push_quoted_chars(out, &chars);
}

fn push_quoted_chars(out: &mut String, chars: &Vec<char>)
    ensures
        final(out)@ == old(out)@ + quoted(chars@),
{
    strings::push_char(out, '"');
    let ghost start = out@;
    assert(chars@.subrange(0, chars@.len() as int) =~= chars@);
    let mut i: usize = 0;
    while i < chars.len()
        invariant
            i <= chars@.len(),
            out@ + escape_text(chars@.subrange(i as int, chars@.len() as int)) == start + escape_text(chars@),
        decreases chars@.len() - i,
    {
        let c = chars[i];
        let ghost before = out@;
        if c == '"' {
            strings::push_char(out, '\\');
            strings::push_char(out, '"');
        } else if c == '\n' {
            strings::push_char(out, '\\');
            strings::push_char(out, 'n');
        } else if c == '\r' {
            strings::push_char(out, '\\');
            strings::push_char(out, 'r');
        } else if c == '\t' {
            strings::push_char(out, '\\');
            strings::push_char(out, 't');
        } else if c == '\\' {
            strings::push_char(out, '\\');
            strings::push_char(out, '\\');
        } else {
            strings::push_char(out, c);
        }
        proof {
            let rest = chars@.subrange(i as int, chars@.len() as int);
            assert(rest.drop_first() =~= chars@.subrange(i + 1, chars@.len() as int));
            assert(rest[0] == c);
            assert(out@ =~= before + escape_char(c));
            assert(out@ + escape_text(chars@.subrange(i + 1, chars@.len() as int))
                =~= before + escape_text(rest));
        }
        i += 1;
    }
    proof {
        assert(chars@.subrange(chars@.len() as int, chars@.len() as int) =~= Seq::<char>::empty());
        assert(chars@.subrange(0, chars@.len() as int) =~= chars@);
    }
    strings::push_char(out, '"');
    assert(out@ =~= old(out)@ + quoted(chars@));
}

fn push_indent(out: &mut String, depth: usize)
    ensures
        final(out)@ == old(out)@ + indent(depth as nat),
{
    let mut i: usize = 0;
    while i < depth
        invariant
            i <= depth,
            out@ == old(out)@ + indent(i as nat),
        decreases depth - i,
    {
        strings::push_char(out, '\t');
        assert(indent((i + 1) as nat) =~= indent(i as nat).push('\t'));
        i += 1;
    }
}

/// UTF-16 words decoded as `String::from_utf16` does.
pub fn decode_utf16_words(w: &Vec<u16>) -> (r: Option<Vec<char>>)
    ensures
        match decode_utf16(w@) {
            Some(s) => r matches Some(x) && x@ == s,
            None => r is None,
        },
{
    let mut out: Vec<char> = Vec::new();
    assert(w@.subrange(0, w@.len() as int) =~= w@);
    assert(out@ =~= Seq::<char>::empty());
    let mut i: usize = 0;
    while i < w.len()
        invariant
            i <= w@.len(),
            decode_utf16(w@) == (match decode_utf16(w@.subrange(i as int, w@.len() as int)) {
                Some(s) => Some(out@ + s),
                None => None,
            }),
        decreases w@.len() - i,
    {
        let u = w[i];
        let ghost rest = w@.subrange(i as int, w@.len() as int);
        if u < 0xD800 || u > 0xDFFF {
            let c = match strings::char_from_u32(u as u32) {
                Some(c) => c,
                None => { return None; },
            };
            proof {
                assert(rest.drop_first() =~= w@.subrange(i + 1, w@.len() as int));
                vstd::utf8::char_u32_cast(c, u as u32);
                assert(c == (u as u32) as char);
                match decode_utf16(rest.drop_first()) {
                    Some(s) => { assert(out@ + (seq![c] + s) =~= out@.push(c) + s); },
                    None => {},
                }
            }
            out.push(c);
            i += 1;
        } else if u <= 0xDBFF && i + 1 < w.len() && 0xDC00 <= w[i + 1] && w[i + 1] <= 0xDFFF {
            let v: u32 = 0x10000 + ((u - 0xD800) as u32) * 0x400 + ((w[i + 1] - 0xDC00) as u32);
            let c = match strings::char_from_u32(v) {
                Some(c) => c,
                None => { return None; },
            };
            proof {
                assert(rest.subrange(2, rest.len() as int) =~= w@.subrange(i + 2, w@.len() as int));
                vstd::utf8::char_u32_cast(c, v);
                assert(c == v as char);
                match decode_utf16(rest.subrange(2, rest.len() as int)) {
                    Some(s) => { assert(out@ + (seq![c] + s) =~= out@.push(c) + s); },
                    None => {},
                }
            }
            out.push(c);
            i += 2;
        } else {
            return None;
        }
    }
    assert(w@.subrange(w@.len() as int, w@.len() as int) =~= Seq::<u16>::empty());
    assert(out@ + Seq::<char>::empty() =~= out@);
    Some(out)
}

/// The models of a float text table.
pub open spec fn table_model(t: Seq<(u32, String)>) -> Seq<(u32, Seq<char>)> {
    Seq::new(t.len(), |i: int| (t[i].0, t[i].1@))
}

fn lookup_float_text(table: &Vec<(u32, String)>, bits: u32) -> (r: Option<&String>)
    ensures
        match float_text_of(table_model(table@), bits) {
            Some(t) => r matches Some(x) && x@ == t,
            None => r is None,
        },
{
    let ghost m = table_model(table@);
    assert(m.subrange(0, m.len() as int) =~= m);
    let mut i: usize = 0;
    while i < table.len()
        invariant
            i <= table@.len(),
            m == table_model(table@),
            float_text_of(m, bits) == float_text_of(m.subrange(i as int, m.len() as int), bits),
        decreases table@.len() - i,
    {
        proof {
            let rest = m.subrange(i as int, m.len() as int);
            assert(rest.drop_first() =~= m.subrange(i + 1, m.len() as int));
        }
        if table[i].0 == bits {
            return Some(&table[i].1);
        }
        i += 1;
    }
    None
}

fn push_quoted_decimal(out: &mut String, v: i64)
    ensures
        final(out)@ == old(out)@ + (seq!['"'] + signed_decimal(v as int) + seq!['"']),
{
    strings::push_char(out, '"');
    number::push_signed_decimal(out, v);
    strings::push_char(out, '"');
    assert(out@ =~= old(out)@ + (seq!['"'] + signed_decimal(v as int) + seq!['"']));
}

fn push_quoted_unsigned(out: &mut String, v: u64)
    ensures
        final(out)@ == old(out)@ + (seq!['"'] + decimal(v as nat) + seq!['"']),
{
    strings::push_char(out, '"');
    number::push_decimal(out, v);
    strings::push_char(out, '"');
    assert(out@ =~= old(out)@ + (seq!['"'] + decimal(v as nat) + seq!['"']));
}

fn write_text_value(out: &mut String, data: &KvData, floats: &Vec<(u32, String)>) -> (r: Result<(), Error>)
    ensures
        match value_text(data@, table_model(floats@)) {
            Ok(t) => r is Ok && final(out)@ == old(out)@ + t,
            Err(e) => r matches Err(x) && x@ == e && final(out)@ == old(out)@,
        },
{
    match data {
        KvData::String(value) => push_quoted(out, value),
        KvData::WideString(value) => {
            match decode_utf16_words(value) {
                Some(chars) => push_quoted_chars(out, &chars),
                None => { return Err(Error::InvalidUtf16); },
            }
        },
        KvData::BinaryString(_) => { return Err(Error::Unsupported("binary string in text output")); },
        KvData::Int(value) => push_quoted_decimal(out, *value as i64),
        KvData::Int64(value) => push_quoted_decimal(out, *value),
        KvData::UInt64(value) => {
            strings::push_char(out, '"');
            strings::push_char(out, '0');
            strings::push_char(out, 'x');
            number::push_hex(out, *value, 16);
            strings::push_char(out, '"');
            assert(out@ =~= old(out)@ + (seq!['"', '0', 'x'] + hex_digits(*value as nat, 16) + seq!['"']));
        },
        KvData::Float(bits) => {
            match lookup_float_text(floats, *bits) {
                Some(t) => {
                    strings::push_char(out, '"');
                    let ghost mid = out@;
                    let chars = strings::chars_of(t.as_str());
                    strings::push_chars(out, &chars);
                    strings::push_char(out, '"');
                    assert(out@ =~= old(out)@ + (seq!['"'] + t@ + seq!['"']));
                },
                None => { return Err(Error::UnexpectedToken); },
            }
        },
        KvData::Pointer(value) => push_quoted_unsigned(out, *value as u64),
        KvData::Color(value) => push_quoted_unsigned(out, *value as u64),
        KvData::Compound(_) => { return Err(Error::UnexpectedToken); },
    }
    Ok(())
}

fn write_text_entry(out: &mut String, entry: &KvEntry, depth: usize, floats: &Vec<(u32, String)>) -> (r: Result<(), Error>)
    requires
        depth + nesting(entry@.data) < usize::MAX,
    ensures
        match entry_text(entry@, depth as nat, table_model(floats@)) {
            Ok(t) => r is Ok && final(out)@ == old(out)@ + t,
            Err(e) => r matches Err(x) && x@ == e,
        },
    decreases entry@, 1int,
{
    push_indent(out, depth);
    push_quoted(out, &entry.name);
    let ghost head_end = out@;
    match &entry.data {
        KvData::Compound(entries) => {
            proof { crate::types::lemma_compound_model(*entries); }
            strings::push_char(out, '\n');
            push_indent(out, depth);
            strings::push_char(out, '{');
            strings::push_char(out, '\n');
            let ghost open_end = out@;
            proof {
                lemma_entries_nesting(entries_model(entries@));
                assert forall|i: int| 0 <= i < entries@.len() implies (depth + 1) + nesting(#[trigger] entries@[i]@.data) < usize::MAX by {
                    assert(entries_model(entries@)[i] == entries@[i]@);
                }
            }
            write_text_entries(out, entries, depth + 1, floats)?;
            let ghost body_end = out@;
            push_indent(out, depth);
            strings::push_char(out, '}');
            strings::push_char(out, '\n');
            proof {
                let body = entries_text(entries_model(entries@), (depth + 1) as nat, table_model(floats@))->Ok_0;
                assert(out@ =~= old(out)@ + (indent(depth as nat) + quoted(entry@.name) + seq!['\n'] + indent(depth as nat)
                    + seq!['{', '\n'] + body + indent(depth as nat) + seq!['}', '\n']));
            }
        },
        data => {
            strings::push_char(out, '\t');
            write_text_value(out, data, floats)?;
            strings::push_char(out, '\n');
            proof {
                let v = value_text(entry@.data, table_model(floats@))->Ok_0;
                assert(out@ =~= old(out)@ + (indent(depth as nat) + quoted(entry@.name) + seq!['\t'] + v + seq!['\n']));
            }
        },
    }
    Ok(())
}

fn write_text_entries(out: &mut String, entries: &Vec<KvEntry>, depth: usize, floats: &Vec<(u32, String)>) -> (r: Result<(), Error>)
    requires
        forall|i: int| 0 <= i < entries@.len() ==> depth + nesting(#[trigger] entries@[i]@.data) < usize::MAX,
    ensures
        match entries_text(entries_model(entries@), depth as nat, table_model(floats@)) {
            Ok(t) => r is Ok && final(out)@ == old(out)@ + t,
            Err(e) => r matches Err(x) && x@ == e,
        },
    decreases entries_model(entries@), 0int,
{
    let ghost es = entries_model(entries@);
    let ghost fl = table_model(floats@);
    assert(es.subrange(0, es.len() as int) =~= es);
    assert(out@.subrange(old(out)@.len() as int, out@.len() as int) + Seq::<char>::empty() =~= Seq::<char>::empty());
    let mut i: usize = 0;
    while i < entries.len()
        invariant
            i <= entries@.len(),
            forall|j: int| 0 <= j < entries@.len() ==> depth + nesting(#[trigger] entries@[j]@.data) < usize::MAX,
            es == entries_model(entries@),
            fl == table_model(floats@),
            entries_text(es, depth as nat, fl) == (match entries_text(es.subrange(i as int, es.len() as int), depth as nat, fl) {
                Ok(t) => Ok(out@.subrange(old(out)@.len() as int, out@.len() as int) + t),
                Err(e) => Err(e),
            }),
            old(out)@.len() <= out@.len(),
            out@.subrange(0, old(out)@.len() as int) == old(out)@,
        decreases entries@.len() - i,
    {
        let ghost before = out@;
        let ghost tail = es.subrange(i as int, es.len() as int);
        assert(tail[0] == entries@[i as int]@);
        assert(tail.drop_first() =~= es.subrange(i + 1, es.len() as int));
        assert(decreases_to!(es => tail[0]));
        write_text_entry(out, &entries[i], depth, floats)?;
        proof {
            let t = entry_text(tail[0], depth as nat, fl)->Ok_0;
            assert(out@.subrange(old(out)@.len() as int, out@.len() as int)
                =~= before.subrange(old(out)@.len() as int, before.len() as int) + t);
            assert(out@.subrange(0, old(out)@.len() as int) =~= old(out)@);
            match entries_text(es.subrange(i + 1, es.len() as int), depth as nat, fl) {
                Ok(rest) => {
                    assert(before.subrange(old(out)@.len() as int, before.len() as int) + (t + rest)
                        =~= out@.subrange(old(out)@.len() as int, out@.len() as int) + rest);
                },
                Err(_) => {},
            }
        }
        i += 1;
    }
    proof {
        assert(es.subrange(es.len() as int, es.len() as int) =~= Seq::<EntryModel>::empty());
        assert(out@ =~= old(out)@ + out@.subrange(old(out)@.len() as int, out@.len() as int));
        assert(out@.subrange(old(out)@.len() as int, out@.len() as int) + Seq::<char>::empty()
            =~= out@.subrange(old(out)@.len() as int, out@.len() as int));
    }
    Ok(())
}

proof fn lemma_leaves_concat(a: Seq<EntryModel>, b: Seq<EntryModel>)
    ensures
        entries_float_leaves(a + b) == entries_float_leaves(a) + entries_float_leaves(b),
    decreases a.len(),
{
    if a.len() == 0 {
        assert(a + b =~= b);
        assert(entries_float_leaves(a) + entries_float_leaves(b) =~= entries_float_leaves(b));
    } else {
        assert((a + b).drop_first() =~= a.drop_first() + b);
        lemma_leaves_concat(a.drop_first(), b);
        assert(entries_float_leaves(a + b) =~= entries_float_leaves(a) + entries_float_leaves(b));
    }
}

fn collect_floats(data: &KvData, out: &mut Vec<u32>)
    ensures
        final(out)@ == old(out)@ + float_leaves(data@),
    decreases data_size(data@),
{
    match data {
        KvData::Float(b) => {
            out.push(*b);
        },
        KvData::Compound(es) => {
            let ghost m = entries_model(es@);
            proof { crate::types::lemma_compound_model(*es); lemma_entries_size(m); }
            assert(m.subrange(0, 0) =~= Seq::<EntryModel>::empty());
            assert(out@ =~= old(out)@ + entries_float_leaves(m.subrange(0, 0)));
            let mut k: usize = 0;
            while k < es.len()
                invariant
                    k <= es@.len(),
                    m == entries_model(es@),
                    data@ == DataModel::Compound(m),
                    forall|i: int| 0 <= i < m.len() ==> data_size(#[trigger] m[i].data) < entries_size(m),
                    out@ == old(out)@ + entries_float_leaves(m.subrange(0, k as int)),
                decreases es@.len() - k,
            {
                assert(m[k as int] == es@[k as int]@);
                assert(data_size(m[k as int].data) < entries_size(m));
                collect_floats(&es[k].data, out);
                proof {
                    assert(m.subrange(0, k + 1) =~= m.subrange(0, k as int) + seq![m[k as int]]);
                    lemma_leaves_concat(m.subrange(0, k as int), seq![m[k as int]]);
                    assert(seq![m[k as int]].drop_first() =~= Seq::<EntryModel>::empty());
                    assert(entries_float_leaves(Seq::<EntryModel>::empty()) == Seq::<u32>::empty());
                    assert(entries_float_leaves(seq![m[k as int]]) == float_leaves(m[k as int].data) + entries_float_leaves(Seq::<EntryModel>::empty()));
                    assert(entries_float_leaves(seq![m[k as int]]) =~= float_leaves(m[k as int].data));
                }
                k += 1;
            }
            assert(m.subrange(0, m.len() as int) =~= m);
        },
        _ => {},
    }
}

/// The bits of the floats in a run of entries, in the order they are written.
pub fn entries_float_values(es: &Vec<KvEntry>) -> (r: Vec<u32>)
    ensures
        r@ == entries_float_leaves(entries_model(es@)),
{
    let ghost m = entries_model(es@);
    let mut out: Vec<u32> = Vec::new();
    assert(m.subrange(0, 0) =~= Seq::<EntryModel>::empty());
    assert(out@ =~= entries_float_leaves(m.subrange(0, 0)));
    let mut k: usize = 0;
    while k < es.len()
        invariant
            k <= es@.len(),
            m == entries_model(es@),
            out@ == entries_float_leaves(m.subrange(0, k as int)),
        decreases es@.len() - k,
    {
        assert(m[k as int] == es@[k as int]@);
        collect_floats(&es[k].data, &mut out);
        proof {
            assert(m.subrange(0, k + 1) =~= m.subrange(0, k as int) + seq![m[k as int]]);
            lemma_leaves_concat(m.subrange(0, k as int), seq![m[k as int]]);
            assert(seq![m[k as int]].drop_first() =~= Seq::<EntryModel>::empty());
            assert(entries_float_leaves(Seq::<EntryModel>::empty()) == Seq::<u32>::empty());
            assert(entries_float_leaves(seq![m[k as int]]) == float_leaves(m[k as int].data) + entries_float_leaves(Seq::<EntryModel>::empty()));
            assert(entries_float_leaves(seq![m[k as int]]) =~= float_leaves(m[k as int].data));
        }
        k += 1;
    }
    assert(m.subrange(0, m.len() as int) =~= m);
    out
}

/// The bits of the floats in `data`, in the order they are written.
pub fn float_values(data: &KvData) -> (r: Vec<u32>)
    ensures
        r@ == float_leaves(data@),
{
    let mut out: Vec<u32> = Vec::new();
    collect_floats(data, &mut out);
    assert(out@ =~= float_leaves(data@));
    out
}

/// The text of one entry named `name` holding `data`, at nesting 0, each float written as
/// the text `floats` gives for its bits.
pub fn text_to_string(name: &str, data: &KvData, floats: &Vec<(u32, String)>) -> (r: Result<String, Error>)
    requires
        nesting(data@) < usize::MAX,
    ensures
        match entry_text(EntryModel { name: name@, data: data@ }, 0, table_model(floats@)) {
            Ok(t) => r matches Ok(s) && s@ == t,
            Err(e) => r matches Err(x) && x@ == e,
        },
{
    let entry = KvEntry { name: strings::owned(name), data: data.clone() };
    let mut out = String::new();
    write_text_entry(&mut out, &entry, 0, floats)?;
    assert(out@ =~= Seq::<char>::empty() + out@);
    Ok(out)
}

} // verus!
