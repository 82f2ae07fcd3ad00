use vstd::prelude::*;
use crate::strings;
use crate::types::{DataModel, EntryModel, KvData, KvEntry, data_size, entries_model, entries_size, lemma_compound_model, lemma_entries_size};

verus! {

/// Text that holds a `.`, `e` or `E`: with numeric inference, such a value is read as a
/// float when `f32` parsing accepts it.
pub open spec fn looks_float_like(s: Seq<char>) -> bool {
    exists|i: int| 0 <= i < s.len() && (s[i] == '.' || s[i] == 'e' || s[i] == 'E')
}

/// Whether the text holds a `.`, `e` or `E`.
pub fn looks_float_like_text(s: &Vec<char>) -> (r: bool)
    ensures
        r == looks_float_like(s@),
{
    let mut i: usize = 0;
    while i < s.len()
        invariant
            i <= s@.len(),
            forall|j: int| 0 <= j < i ==> !(s@[j] == '.' || s@[j] == 'e' || s@[j] == 'E'),
        decreases s@.len() - i,
    {
        if s[i] == '.' || s[i] == 'e' || s[i] == 'E' {
            return true;
        }
        i += 1;
    }
    false
}

/// The texts of the string values that look like floats, in document order.
pub open spec fn candidates(d: DataModel) -> Seq<Seq<char>>
    decreases d, 1int,
{
    match d {
        DataModel::Str(s) => if looks_float_like(s) { seq![s] } else { Seq::empty() },
        DataModel::Compound(es) => entries_candidates(es),
        _ => Seq::empty(),
    }
}

/// The float-like string values of a run of entries, in order.
pub open spec fn entries_candidates(es: Seq<EntryModel>) -> Seq<Seq<char>>
    decreases es, 0int,
{
    if es.len() == 0 {
        Seq::empty()
    } else {
        candidates(es[0].data) + entries_candidates(es.drop_first())
    }
}

/// The bits given for a text in a table of parsed floats (the first match).
pub open spec fn float_bits_of(table: Seq<(Seq<char>, u32)>, s: Seq<char>) -> Option<u32>
    decreases table.len(),
{
    if table.len() == 0 {
        None
    } else if table[0].0 == s {
        Some(table[0].1)
    } else {
        float_bits_of(table.drop_first(), s)
    }
}

/// A value with every float-like string that the table parses replaced by that float.
pub open spec fn with_floats(d: DataModel, table: Seq<(Seq<char>, u32)>) -> DataModel
    decreases d,
{
    match d {
        DataModel::Str(s) => if looks_float_like(s) {
            match float_bits_of(table, s) {
                Some(b) => DataModel::Float(b),
                None => DataModel::Str(s),
            }
        } else {
            DataModel::Str(s)
        },
        DataModel::Compound(es) => DataModel::Compound(Seq::new(
            es.len(),
            |i: int| if 0 <= i < es.len() {
                EntryModel { name: es[i].name, data: with_floats(es[i].data, table) }
            } else {
                EntryModel { name: Seq::empty(), data: DataModel::Int(0) }
            },
        )),
        _ => d,
    }
}

/// The model of a table of parsed floats.
pub open spec fn float_table_model(t: Seq<(String, u32)>) -> Seq<(Seq<char>, u32)> {
    Seq::new(t.len(), |i: int| (t[i].0@, t[i].1))
}

fn collect_candidates(data: &KvData, out: &mut Vec<String>)
    ensures
        final(out)@.len() == old(out)@.len() + candidates(data@).len(),
        forall|i: int| 0 <= i < old(out)@.len() ==> #[trigger] final(out)@[i] == old(out)@[i],
        forall|i: int| 0 <= i < candidates(data@).len() ==> #[trigger] final(out)@[old(out)@.len() + i]@ == candidates(data@)[i],
    decreases data_size(data@), 1int,
{
    match data {
        KvData::String(s) => {
            let chars = strings::chars_of(s.as_str());
            if looks_float_like_text(&chars) {
                out.push(s.clone());
            }
        },
        KvData::Compound(es) => {
            proof {
                lemma_compound_model(*es);
            }
            collect_entries_candidates(es, out);
        },
        _ => {},
    }
}

fn collect_entry_candidates(entry: &KvEntry, out: &mut Vec<String>)
    ensures
        final(out)@.len() == old(out)@.len() + candidates(entry@.data).len(),
        forall|i: int| 0 <= i < old(out)@.len() ==> #[trigger] final(out)@[i] == old(out)@[i],
        forall|i: int| 0 <= i < candidates(entry@.data).len() ==> #[trigger] final(out)@[old(out)@.len() + i]@ == candidates(entry@.data)[i],
    decreases data_size(entry@.data), 2int,
{
    collect_candidates(&entry.data, out);
}

fn collect_entries_candidates(es: &Vec<KvEntry>, out: &mut Vec<String>)
    ensures
        final(out)@.len() == old(out)@.len() + entries_candidates(entries_model(es@)).len(),
        forall|i: int| 0 <= i < old(out)@.len() ==> #[trigger] final(out)@[i] == old(out)@[i],
        forall|i: int| 0 <= i < entries_candidates(entries_model(es@)).len()
            ==> #[trigger] final(out)@[old(out)@.len() + i]@ == entries_candidates(entries_model(es@))[i],
    decreases entries_size(entries_model(es@)), 0int,
{
    let ghost m = entries_model(es@);
    proof { lemma_entries_size(m); }
    let ghost base = old(out)@.len();
    assert(m.subrange(0, 0) =~= Seq::<EntryModel>::empty());
    assert(m.subrange(0, m.len() as int) =~= m);
    assert(entries_candidates(Seq::<EntryModel>::empty()) + entries_candidates(m) =~= entries_candidates(m));
    let mut k: usize = 0;
    while k < es.len()
        invariant
            k <= es@.len(),
            m == entries_model(es@),
            forall|i: int| 0 <= i < m.len() ==> data_size(#[trigger] m[i].data) < entries_size(m),
            base == old(out)@.len(),
            entries_candidates(m) == entries_candidates(m.subrange(0, k as int)) + entries_candidates(m.subrange(k as int, m.len() as int)),
            out@.len() == base + entries_candidates(m.subrange(0, k as int)).len(),
            forall|i: int| 0 <= i < base ==> #[trigger] out@[i] == old(out)@[i],
            forall|i: int| 0 <= i < entries_candidates(m.subrange(0, k as int)).len()
                ==> #[trigger] out@[base + i]@ == entries_candidates(m.subrange(0, k as int))[i],
        decreases es@.len() - k,
    {
        let ghost before = out@;
        assert(m[k as int] == es@[k as int]@);
        assert(data_size(m[k as int].data) < entries_size(m));
        collect_entry_candidates(&es[k], out);
        proof {
            let c = candidates(m[k as int].data);
            lemma_candidates_split(m, k as int);
            let pre = entries_candidates(m.subrange(0, k as int));
            assert(entries_candidates(m.subrange(0, k + 1)) == pre + c);
            assert forall|i: int| 0 <= i < (pre + c).len() implies #[trigger] out@[base + i]@ == (pre + c)[i] by {
                if i < pre.len() {
                    assert(out@[base + i] == before[base + i]);
                } else {
                    assert(out@[before.len() + (i - pre.len())]@ == c[i - pre.len()]);
                }
            }
        }
        k += 1;
    }
    proof {
        assert(m.subrange(0, m.len() as int) =~= m);
        assert(m.subrange(m.len() as int, m.len() as int) =~= Seq::<EntryModel>::empty());
        assert(entries_candidates(m) =~= entries_candidates(m.subrange(0, m.len() as int)));
    }
}

proof fn lemma_candidates_concat(a: Seq<EntryModel>, b: Seq<EntryModel>)
    ensures
        entries_candidates(a + b) == entries_candidates(a) + entries_candidates(b),
    decreases a.len(),
{
    if a.len() == 0 {
        assert(a + b =~= b);
        assert(entries_candidates(a) + entries_candidates(b) =~= entries_candidates(b));
    } else {
        assert((a + b).drop_first() =~= a.drop_first() + b);
        lemma_candidates_concat(a.drop_first(), b);
        assert(entries_candidates(a + b) =~= entries_candidates(a) + entries_candidates(b));
    }
}

proof fn lemma_candidates_split(m: Seq<EntryModel>, k: int)
    requires
        0 <= k < m.len(),
    ensures
        entries_candidates(m.subrange(0, k + 1)) == entries_candidates(m.subrange(0, k)) + candidates(m[k].data),
        entries_candidates(m) == entries_candidates(m.subrange(0, k + 1)) + entries_candidates(m.subrange(k + 1, m.len() as int)),
{
    assert(m.subrange(0, k + 1) =~= m.subrange(0, k) + seq![m[k]]);
    lemma_candidates_concat(m.subrange(0, k), seq![m[k]]);
    assert(seq![m[k]].drop_first() =~= Seq::<EntryModel>::empty());
    assert(entries_candidates(Seq::<EntryModel>::empty()) == Seq::<Seq<char>>::empty());
    assert(entries_candidates(seq![m[k]]) == candidates(m[k].data) + entries_candidates(Seq::<EntryModel>::empty()));
    assert(entries_candidates(seq![m[k]]) =~= candidates(m[k].data));
    assert(m =~= m.subrange(0, k + 1) + m.subrange(k + 1, m.len() as int));
    lemma_candidates_concat(m.subrange(0, k + 1), m.subrange(k + 1, m.len() as int));
}

/// The texts of the string values of `entry` that look like floats (hold `.`, `e` or `E`),
/// in document order: those that `f32` parsing may turn into floats.
pub fn float_candidates(entry: &KvEntry) -> (r: Vec<String>)
    ensures
        r@.len() == candidates(entry@.data).len(),
        forall|i: int| 0 <= i < r@.len() ==> #[trigger] r@[i]@ == candidates(entry@.data)[i],
{
    let mut out: Vec<String> = Vec::new();
    collect_candidates(&entry.data, &mut out);
    assert forall|i: int| 0 <= i < out@.len() implies #[trigger] out@[i]@ == candidates(entry@.data)[i] by {
        assert(out@[0 + i] == out@[i]);
    }
    out
}

fn lookup_bits(table: &Vec<(String, u32)>, s: &String) -> (r: Option<u32>)
    ensures
        r == float_bits_of(float_table_model(table@), s@),
{
    let ghost m = float_table_model(table@);
    assert(m.subrange(0, m.len() as int) =~= m);
    let mut i: usize = 0;
    while i < table.len()
        invariant
            i <= table@.len(),
            m == float_table_model(table@),
            float_bits_of(m, s@) == float_bits_of(m.subrange(i as int, m.len() as int), s@),
        decreases table@.len() - i,
    {
        proof {
            let rest = m.subrange(i as int, m.len() as int);
            assert(rest.drop_first() =~= m.subrange(i + 1, m.len() as int));
        }
        if strings::same_text(&table[i].0, s) {
            return Some(table[i].1);
        }
        i += 1;
    }
    None
}

fn apply_to_data(data: KvData, table: &Vec<(String, u32)>) -> (r: KvData)
    ensures
        r@ == with_floats(data@, float_table_model(table@)),
    decreases data_size(data@),
{
    match data {
        KvData::String(s) => {
            let chars = strings::chars_of(s.as_str());
            if looks_float_like_text(&chars) {
                match lookup_bits(table, &s) {
                    Some(b) => KvData::Float(b),
                    None => KvData::String(s),
                }
            } else {
                KvData::String(s)
            }
        },
        KvData::Compound(es) => {
            let ghost m = entries_model(es@);
            proof { lemma_compound_model(es); lemma_entries_size(m); }
            let ghost t = float_table_model(table@);
            let mut out: Vec<KvEntry> = Vec::new();
            let ghost src = es@;
            for e in it: es
                invariant
                    src == it.seq(),
                    m == entries_model(src),
                    data@ == DataModel::Compound(m),
                    forall|i: int| 0 <= i < m.len() ==> data_size(#[trigger] m[i].data) < entries_size(m),
                    out@.len() == it.index(),
                    forall|j: int| 0 <= j < it.index() ==> #[trigger] out@[j]@ == (EntryModel { name: m[j].name, data: with_floats(m[j].data, t) }),
                    t == float_table_model(table@),
            {
                let ghost k = it.index();
                assert(e@ == m[k]);
                assert(data_size(m[k].data) < entries_size(m));
                let d = apply_to_data(e.data, table);
                out.push(KvEntry { name: e.name, data: d });
            }
            proof { lemma_compound_model(out); }
            let r = KvData::Compound(out);
            assert(entries_model(out@) =~= with_floats(DataModel::Compound(m), t)->Compound_0);
            r
        },
        other => other,
    }
}

/// `entry` with each float-like string value that `table` gives bits for replaced by that
/// float. With `table` holding the `f32` readings of `float_candidates(entry)`, this
/// completes numeric inference for floats.
pub fn apply_float_values(entry: KvEntry, table: &Vec<(String, u32)>) -> (r: KvEntry)
    ensures
        r@ == (EntryModel { name: entry@.name, data: with_floats(entry@.data, float_table_model(table@)) }),
{
    let KvEntry { name, data } = entry;
    KvEntry { name, data: apply_to_data(data, table) }
}

} // verus!
