use vstd::prelude::*;
use crate::number;
use crate::strings;
use vstd::arithmetic::power2::{pow2, lemma_pow2_pos, lemma_pow2_unfold, lemma_pow2_adds, lemma_pow2_strictly_increases, lemma2_to64};
use vstd::arithmetic::div_mod::lemma_div_denominator;

verus! {

/// A KeyValues value. Texts are owned; a float is held by its IEEE-754 bits.
#[derive(Debug, PartialEq)]
pub enum KvData {
    String(String),
    WideString(Vec<u16>),
    BinaryString(Vec<u8>),
    Int(i32),
    Int64(i64),
    UInt64(u64),
    Float(u32),
    Pointer(usize),
    Color(u32),
    Compound(Vec<KvEntry>),
}

/// A named KeyValues value.
#[derive(Debug, PartialEq)]
pub struct KvEntry {
    pub name: String,
    pub data: KvData,
}

/// Mathematical value of a [`KvData`].
pub enum DataModel {
    Str(Seq<char>),
    Wide(Seq<u16>),
    Bytes(Seq<u8>),
    Int(i32),
    Int64(i64),
    UInt64(u64),
    Float(u32),
    Pointer(usize),
    Color(u32),
    Compound(Seq<EntryModel>),
}

/// Mathematical value of a [`KvEntry`].
pub struct EntryModel {
    pub name: Seq<char>,
    pub data: DataModel,
}

impl KvData {
    pub open spec fn model(&self) -> DataModel
        decreases self,
    {
        match self {
            KvData::String(s) => DataModel::Str(s@),
            KvData::WideString(w) => DataModel::Wide(w@),
            KvData::BinaryString(b) => DataModel::Bytes(b@),
            KvData::Int(v) => DataModel::Int(*v),
            KvData::Int64(v) => DataModel::Int64(*v),
            KvData::UInt64(v) => DataModel::UInt64(*v),
            KvData::Float(v) => DataModel::Float(*v),
            KvData::Pointer(v) => DataModel::Pointer(*v),
            KvData::Color(v) => DataModel::Color(*v),
            KvData::Compound(v) => DataModel::Compound(
                Seq::new(
                    v@.len(),
                    |i: int|
                        if 0 <= i < v@.len() {
                            v@[i].model()
                        } else {
                            EntryModel { name: Seq::empty(), data: DataModel::Int(0) }
                        },
                ),
            ),
        }
    }
}

impl KvEntry {
    pub open spec fn model(&self) -> EntryModel
        decreases self,
    {
        EntryModel { name: self.name@, data: self.data.model() }
    }
}

impl View for KvData {
    type V = DataModel;

    open spec fn view(&self) -> DataModel {
        self.model()
    }
}

impl View for KvEntry {
    type V = EntryModel;

    open spec fn view(&self) -> EntryModel {
        self.model()
    }
}

fn copy_words(v: &Vec<u16>) -> (r: Vec<u16>)
    ensures
        r@ == v@,
{
    let mut r: Vec<u16> = Vec::new();
    let mut i: usize = 0;
    while i < v.len()
        invariant
            i <= v@.len(),
            r@ == v@.subrange(0, i as int),
        decreases v@.len() - i,
    {
        r.push(v[i]);
        assert(v@.subrange(0, i + 1) == v@.subrange(0, i as int).push(v@[i as int]));
        i += 1;
    }
    assert(v@.subrange(0, v@.len() as int) == v@);
    r
}

fn copy_bytes(v: &Vec<u8>) -> (r: Vec<u8>)
    ensures
        r@ == v@,
{
    let mut r: Vec<u8> = Vec::new();
    let mut i: usize = 0;
    while i < v.len()
        invariant
            i <= v@.len(),
            r@ == v@.subrange(0, i as int),
        decreases v@.len() - i,
    {
        r.push(v[i]);
        assert(v@.subrange(0, i + 1) == v@.subrange(0, i as int).push(v@[i as int]));
        i += 1;
    }
    assert(v@.subrange(0, v@.len() as int) == v@);
    r
}

impl Clone for KvData {
    /// A deep copy.
    #[verifier::loop_isolation(false)]
    fn clone(&self) -> (r: Self)
        ensures
            r@ == self@,
        decreases self,
    {
        match self {
            KvData::String(s) => KvData::String(s.clone()),
            KvData::WideString(w) => KvData::WideString(copy_words(w)),
            KvData::BinaryString(b) => KvData::BinaryString(copy_bytes(b)),
            KvData::Int(v) => KvData::Int(*v),
            KvData::Int64(v) => KvData::Int64(*v),
            KvData::UInt64(v) => KvData::UInt64(*v),
            KvData::Float(v) => KvData::Float(*v),
            KvData::Pointer(v) => KvData::Pointer(*v),
            KvData::Color(v) => KvData::Color(*v),
            KvData::Compound(es) => {
                let mut out: Vec<KvEntry> = Vec::new();
                let mut i: usize = 0;
                while i < es.len()
                    invariant
                        i <= es@.len(),
                        entries_model(out@) == entries_model(es@).subrange(0, i as int),
                    decreases es@.len() - i,
                {
                    let e = &es[i];
                    proof {
                        assert(decreases_to!(*es => es@));
                        assert(decreases_to!(es@ => es@[i as int]));
                        assert(decreases_to!(self => *es));
                    }
                    let c = KvEntry { name: e.name.clone(), data: e.data.clone() };
                    out.push(c);
                    assert(entries_model(out@) =~= entries_model(es@).subrange(0, i + 1));
                    i += 1;
                }
                proof {
                    lemma_compound_model(out);
                    lemma_compound_model(*es);
                    assert(entries_model(es@).subrange(0, es@.len() as int) =~= entries_model(es@));
                }
                KvData::Compound(out)
            },
        }
    }
}

impl Clone for KvEntry {
    /// A deep copy.
    fn clone(&self) -> (r: Self)
        ensures
            r@ == self@,
    {
        KvEntry { name: self.name.clone(), data: self.data.clone() }
    }
}

/// The models of a sequence of entries.
pub open spec fn entries_model(v: Seq<KvEntry>) -> Seq<EntryModel> {
    Seq::new(v.len(), |i: int| v[i]@)
}

/// The models of a sequence of entry references.
pub open spec fn refs_model(v: Seq<&KvEntry>) -> Seq<EntryModel> {
    Seq::new(v.len(), |i: int| v[i]@)
}

pub proof fn lemma_compound_model(v: Vec<KvEntry>)
    ensures
        KvData::Compound(v)@ == DataModel::Compound(entries_model(v@)),
{
    assert(DataModel::Compound(entries_model(v@)) == KvData::Compound(v)@) by {
        assert(entries_model(v@) =~= KvData::Compound(v)@->Compound_0);
    }
}

/// The number of values in a value, counting itself and everything nested in it.
pub open spec fn data_size(d: DataModel) -> nat
    decreases d, 1int,
{
    match d {
        DataModel::Compound(es) => 1 + entries_size(es),
        _ => 1,
    }
}

/// The number of values in a run of entries, counting each entry and what it holds.
pub open spec fn entries_size(es: Seq<EntryModel>) -> nat
    decreases es, 0int,
{
    if es.len() == 0 { 0 } else { 1 + data_size(es[0].data) + entries_size(es.drop_first()) }
}

pub proof fn lemma_entries_size(es: Seq<EntryModel>)
    ensures
        forall|i: int| 0 <= i < es.len() ==> data_size(#[trigger] es[i].data) < entries_size(es),
    decreases es.len(),
{
    if es.len() > 0 {
        lemma_entries_size(es.drop_first());
        assert forall|i: int| 0 <= i < es.len() implies data_size(#[trigger] es[i].data) < entries_size(es) by {
            if i > 0 {
                assert(es[i] == es.drop_first()[i - 1]);
            }
        }
    }
}

/// The biased exponent field of the float with bits `bits`.
pub open spec fn float_exp(bits: u32) -> int {
    ((bits / 0x80_0000) % 0x100) as int
}

/// The fraction field of the float with bits `bits`.
pub open spec fn float_frac(bits: u32) -> int {
    (bits % 0x80_0000) as int
}

/// The magnitude of the integer part of the finite float with bits `bits`.
pub open spec fn float_mag(bits: u32) -> int {
    let exp = float_exp(bits);
    let m = float_frac(bits) + 0x80_0000;
    if exp == 0 {
        0
    } else if exp >= 150 {
        m * pow2((exp - 150) as nat)
    } else {
        m / (pow2((150 - exp) as nat) as int)
    }
}

/// The integer part of the float with bits `bits`, cast with Rust `as` to the range
/// `[lo, hi]`: truncated toward zero, saturated at the bounds, NaN giving zero.
pub open spec fn float_to_int(bits: u32, lo: int, hi: int) -> int {
    if float_exp(bits) == 0xff {
        if float_frac(bits) != 0 { 0 } else if bits >= 0x8000_0000 { lo } else { hi }
    } else {
        let v = if bits >= 0x8000_0000 { -float_mag(bits) } else { float_mag(bits) };
        if v < lo { lo } else if v > hi { hi } else { v }
    }
}

proof fn lemma_pow2_bounds(i: nat, k: nat)
    requires
        i <= k,
    ensures
        0 < pow2(i) <= pow2(k),
{
    lemma_pow2_pos(i);
    if i < k {
        lemma_pow2_strictly_increases(i, k);
    }
}

/// The magnitude of the integer part of a finite float, capped at 2^64.
fn float_mag_capped(bits: u32) -> (r: u128)
    requires
        float_exp(bits) != 0xff,
    ensures
        r == if float_mag(bits) >= 0x1_0000_0000_0000_0000 { 0x1_0000_0000_0000_0000 } else { float_mag(bits) },
{
    let exp = (bits / 0x80_0000) % 0x100;
    let frac = bits % 0x80_0000;
    if exp == 0 {
        return 0;
    }
    let m: u128 = (frac + 0x80_0000) as u128;
    if exp >= 150 {
        let k = exp - 150;
        if k > 40 {
            proof {
                lemma2_to64();
                lemma_pow2_adds(32, 9);
                lemma_pow2_bounds(41, k as nat);
                let p = pow2(k as nat);
                assert(m * p >= 0x80_0000 * 0x200_0000_0000) by (nonlinear_arith)
                    requires
                        m >= 0x80_0000,
                        p >= 0x200_0000_0000,
                ;
            }
            assert(float_mag(bits) >= 0x1_0000_0000_0000_0000);
            return 0x1_0000_0000_0000_0000;
        }
        let mut v: u128 = m;
        let mut i: u32 = 0;
        proof {
            lemma2_to64();
            lemma_pow2_adds(32, 8);
        }
        while i < k
            invariant
                i <= k <= 40,
                m < 0x100_0000,
                v == m * pow2(i as nat),
                pow2(40) == 0x100_0000_0000,
            decreases k - i,
        {
            proof {
                lemma_pow2_unfold((i + 1) as nat);
                lemma_pow2_bounds(i as nat, 40);
                let p = pow2(i as nat);
                assert(m * p <= 0x100_0000 * 0x100_0000_0000) by (nonlinear_arith)
                    requires
                        m < 0x100_0000,
                        p <= 0x100_0000_0000,
                ;
                assert(m * (2 * p) == (m * p) * 2) by (nonlinear_arith);
            }
            v = v * 2;
            i = i + 1;
        }
        assert(v == float_mag(bits));
        if v >= 0x1_0000_0000_0000_0000 { 0x1_0000_0000_0000_0000 } else { v }
    } else {
        let k = 150 - exp;
        let mut v: u128 = m;
        let mut i: u32 = 0;
        proof {
            lemma2_to64();
        }
        while i < k
            invariant
                i <= k,
                v == (m as int) / (pow2(i as nat) as int),
                v <= m < 0x100_0000,
            decreases k - i,
        {
            proof {
                lemma_pow2_unfold((i + 1) as nat);
                lemma_pow2_pos(i as nat);
                lemma_div_denominator(m as int, pow2(i as nat) as int, 2);
                assert(pow2(i as nat) * 2 == pow2((i + 1) as nat));
                assert((m as int) / (pow2(i as nat) as int) <= m) by {
                    vstd::arithmetic::div_mod::lemma_div_is_ordered_by_denominator(m as int, 1, pow2(i as nat) as int);
                }
            }
            v = v / 2;
            i = i + 1;
        }
        assert(v == float_mag(bits));
        v
    }
}

/// `f32 as i32` on the float with bits `bits`.
pub fn float_bits_to_i32(bits: u32) -> (r: i32)
    ensures
        r == float_to_int(bits, i32::MIN as int, i32::MAX as int),
{
    if (bits / 0x80_0000) % 0x100 == 0xff {
        if bits % 0x80_0000 != 0 { 0 } else if bits >= 0x8000_0000 { i32::MIN } else { i32::MAX }
    } else {
        let m = float_mag_capped(bits);
        if bits >= 0x8000_0000 {
            if m >= 0x8000_0000 { i32::MIN } else { (0 - (m as i64)) as i32 }
        } else {
            if m > 0x7fff_ffff { i32::MAX } else { m as i32 }
        }
    }
}

/// `f32 as i64` on the float with bits `bits`.
pub fn float_bits_to_i64(bits: u32) -> (r: i64)
    ensures
        r == float_to_int(bits, i64::MIN as int, i64::MAX as int),
{
    if (bits / 0x80_0000) % 0x100 == 0xff {
        if bits % 0x80_0000 != 0 { 0 } else if bits >= 0x8000_0000 { i64::MIN } else { i64::MAX }
    } else {
        let m = float_mag_capped(bits);
        if bits >= 0x8000_0000 {
            if m >= 0x8000_0000_0000_0000 { i64::MIN } else { (0 - (m as i128)) as i64 }
        } else {
            if m > 0x7fff_ffff_ffff_ffff { i64::MAX } else { m as i64 }
        }
    }
}

/// `f32 as u64` on the float with bits `bits`.
pub fn float_bits_to_u64(bits: u32) -> (r: u64)
    ensures
        r == float_to_int(bits, 0, u64::MAX as int),
{
    if (bits / 0x80_0000) % 0x100 == 0xff {
        if bits % 0x80_0000 != 0 { 0 } else if bits >= 0x8000_0000 { 0 } else { u64::MAX }
    } else {
        let m = float_mag_capped(bits);
        if bits >= 0x8000_0000 {
            0
        } else {
            if m > 0xffff_ffff_ffff_ffff { u64::MAX } else { m as u64 }
        }
    }
}

/// `KvData::to_int`: the value as an `i32`, converting the numeric variants with `as`
/// (which keeps the low bits of an integer) and parsing strings.
pub open spec fn to_int_model(d: DataModel) -> Option<i32> {
    match d {
        DataModel::Int(v) => Some(v),
        DataModel::Int64(v) => Some(v as i32),
        DataModel::UInt64(v) => Some(v as i32),
        DataModel::Float(b) => Some(float_to_int(b, i32::MIN as int, i32::MAX as int) as i32),
        DataModel::Str(s) => number::parse_i32_spec(s),
        _ => None,
    }
}

/// `KvData::to_uint64`: the value as a `u64`, converting the numeric variants with `as`
/// (which keeps the low bits of an integer) and parsing strings.
pub open spec fn to_uint64_model(d: DataModel) -> Option<u64> {
    match d {
        DataModel::UInt64(v) => Some(v),
        DataModel::Int(v) => Some(v as u64),
        DataModel::Int64(v) => Some(v as u64),
        DataModel::Float(b) => Some(float_to_int(b, 0, u64::MAX as int) as u64),
        DataModel::Str(s) => number::parse_u64_spec(s, 10),
        _ => None,
    }
}

/// The entries below a value: those of a compound, none for any other value.
pub open spec fn children_of(d: DataModel) -> Seq<EntryModel> {
    match d {
        DataModel::Compound(es) => es,
        _ => Seq::empty(),
    }
}

/// Whether an entry holds a compound.
pub open spec fn holds_compound(e: EntryModel) -> bool {
    e.data is Compound
}

/// Whether an entry holds a value that is not a compound.
pub open spec fn holds_value(e: EntryModel) -> bool {
    !(e.data is Compound)
}

/// The test `iter_compounds` keeps entries by.
pub open spec fn compound_test() -> spec_fn(EntryModel) -> bool {
    |e: EntryModel| holds_compound(e)
}

/// The test `iter_values` keeps entries by.
pub open spec fn value_test() -> spec_fn(EntryModel) -> bool {
    |e: EntryModel| holds_value(e)
}

/// Whether an entry is named `name`.
pub open spec fn named(name: Seq<char>) -> spec_fn(EntryModel) -> bool {
    |e: EntryModel| e.name == name
}

/// The index of the first entry named `name` at or after `i`, if any.
pub open spec fn first_named_from(es: Seq<EntryModel>, name: Seq<char>, i: int) -> Option<int>
    decreases es.len() - i,
{
    if i < 0 || i >= es.len() {
        None
    } else if es[i].name == name {
        Some(i)
    } else {
        first_named_from(es, name, i + 1)
    }
}

/// The first child named `name`, as `KvEntry::get` finds it.
pub open spec fn get_model(e: EntryModel, name: Seq<char>) -> Option<EntryModel> {
    match first_named_from(children_of(e.data), name, 0) {
        Some(i) => Some(children_of(e.data)[i]),
        None => None,
    }
}

/// The entries of the compounds named `name` among `es`, one compound after another.
pub open spec fn all_in(es: Seq<EntryModel>, name: Seq<char>) -> Seq<EntryModel>
    decreases es.len(),
{
    if es.len() == 0 {
        Seq::empty()
    } else {
        let prev = all_in(es.drop_last(), name);
        let e = es.last();
        if e.name == name && e.data is Compound { prev + e.data->Compound_0 } else { prev }
    }
}

/// The segments of a path, split at each `/` (`str::split('/')`).
pub open spec fn path_segments(s: Seq<char>) -> Seq<Seq<char>>
    decreases s.len(),
{
    if s.len() == 0 {
        seq![Seq::empty()]
    } else {
        let prev = path_segments(s.drop_last());
        if s.last() == '/' {
            prev.push(Seq::empty())
        } else {
            prev.update(prev.len() - 1, prev.last().push(s.last()))
        }
    }
}

/// The entry reached from `e` by following child names in turn.
pub open spec fn path_model(e: EntryModel, segs: Seq<Seq<char>>) -> Option<EntryModel>
    decreases segs.len(),
{
    if segs.len() == 0 {
        Some(e)
    } else {
        match get_model(e, segs[0]) {
            Some(c) => path_model(c, segs.drop_first()),
            None => None,
        }
    }
}

proof fn lemma_refs_push(v: Seq<&KvEntry>, x: &KvEntry)
    ensures
        refs_model(v.push(x)) == refs_model(v).push(x@),
{
    assert(refs_model(v.push(x)) =~= refs_model(v).push(x@));
}

proof fn lemma_entries_push(v: Seq<KvEntry>, x: KvEntry)
    ensures
        entries_model(v.push(x)) == entries_model(v).push(x@),
{
    assert(entries_model(v.push(x)) =~= entries_model(v).push(x@));
}

proof fn lemma_take_push(m: Seq<EntryModel>, i: int)
    requires
        0 <= i < m.len(),
    ensures
        m.take(i + 1) == m.take(i).push(m[i]),
{
    assert(m.take(i + 1) =~= m.take(i).push(m[i]));
}

/// Whether text holds no `/`.
pub open spec fn slash_free(s: Seq<char>) -> bool {
    forall|i: int| 0 <= i < s.len() ==> s[i] != '/'
}

proof fn lemma_segments_append(p: Seq<char>, b: Seq<char>)
    requires
        slash_free(b),
    ensures
        path_segments(p + b) == path_segments(p).update(
            path_segments(p).len() - 1,
            path_segments(p).last() + b,
        ),
    decreases b.len(),
{
    lemma_path_segments_nonempty(p);
    let sp = path_segments(p);
    if b.len() == 0 {
        assert(p + b =~= p);
        assert(sp.last() + b =~= sp.last());
        assert(sp.update(sp.len() - 1, sp.last()) =~= sp);
    } else {
        let b1 = b.drop_last();
        assert(slash_free(b1));
        lemma_segments_append(p, b1);
        assert((p + b).drop_last() =~= p + b1);
        assert((p + b).last() == b.last());
        let prev = path_segments(p + b1);
        lemma_path_segments_nonempty(p + b1);
        assert(prev.last() == sp.last() + b1);
        assert((sp.last() + b1).push(b.last()) =~= sp.last() + b);
        assert(prev.update(prev.len() - 1, prev.last().push(b.last())) =~= sp.update(sp.len() - 1, sp.last() + b));
    }
}

/// A path of two slash-free names, `a/b`, leads to the child `b` of the child `a`: the same
/// entry that two calls of `get` find.
pub proof fn get_path_follows_names(e: EntryModel, a: Seq<char>, b: Seq<char>)
    requires
        slash_free(a),
        slash_free(b),
    ensures
        path_model(e, path_segments(a)) == get_model(e, a),
        path_model(e, path_segments(a + seq!['/'] + b)) == match get_model(e, a) {
            Some(c) => get_model(c, b),
            None => None,
        },
{
    let empty = Seq::<char>::empty();
    lemma_segments_append(empty, a);
    assert(path_segments(empty) == seq![empty]);
    assert(empty + a =~= a);
    assert(path_segments(a) =~= seq![a]);
    assert((a + seq!['/']).drop_last() =~= a);
    assert(path_segments(a + seq!['/']) =~= seq![a, empty]);
    lemma_segments_append(a + seq!['/'], b);
    assert(path_segments(a + seq!['/'] + b) =~= seq![a, b]);
    assert(seq![a].drop_first() =~= Seq::<Seq<char>>::empty());
    assert(seq![a, b].drop_first() =~= seq![b]);
    assert(seq![b].drop_first() =~= Seq::<Seq<char>>::empty());
    match get_model(e, a) {
        Some(c) => {
            assert(path_model(c, seq![b]) == match get_model(c, b) {
                Some(x) => path_model(x, Seq::<Seq<char>>::empty()),
                None => None,
            });
        },
        None => {},
    }
}

/// A string value holding the decimal text of a number converts to that number: any `u64`
/// with `to_uint64`, any `i32` (a `-` before negative ones) with `to_int`.
pub proof fn decimal_text_converts_to_its_number(n: u64, v: i32)
    ensures
        to_uint64_model(DataModel::Str(number::decimal(n as nat))) == Some(n),
        to_int_model(DataModel::Str(number::signed_decimal(v as int))) == Some(v),
{
    number::lemma_parse_decimal(n as nat);
    number::lemma_parse_signed_decimal(v as int);
}

/// Names joined by `/`, one between each two.
pub open spec fn joined(segs: Seq<Seq<char>>) -> Seq<char>
    decreases segs.len(),
{
    if segs.len() <= 1 {
        if segs.len() == 1 { segs[0] } else { Seq::empty() }
    } else {
        joined(segs.drop_last()) + seq!['/'] + segs.last()
    }
}

/// A path is split at every `/`: slash-free names joined by `/` split back into those
/// names, however many there are, so `get_path` looks up each name in turn under the entry
/// found for the one before.
pub proof fn get_path_follows_every_segment(e: EntryModel, segs: Seq<Seq<char>>)
    requires
        segs.len() > 0,
        forall|i: int| 0 <= i < segs.len() ==> slash_free(#[trigger] segs[i]),
    ensures
        path_segments(joined(segs)) == segs,
        path_model(e, path_segments(joined(segs))) == path_model(e, segs),
    decreases segs.len(),
{
    let empty = Seq::<char>::empty();
    if segs.len() == 1 {
        lemma_segments_append(empty, segs[0]);
        assert(empty + segs[0] =~= segs[0]);
        assert(path_segments(segs[0]) =~= segs);
    } else {
        let prev = segs.drop_last();
        get_path_follows_every_segment(e, prev);
        let a = joined(prev);
        assert((a + seq!['/']).drop_last() =~= a);
        assert(path_segments(a + seq!['/']) =~= prev.push(empty));
        assert(slash_free(segs.last()));
        lemma_segments_append(a + seq!['/'], segs.last());
        assert(empty + segs.last() =~= segs.last());
        assert(prev.push(empty).update(prev.len() as int, segs.last()) =~= segs);
    }
}

proof fn lemma_path_segments_nonempty(s: Seq<char>)
    ensures
        path_segments(s).len() > 0,
    decreases s.len(),
{
    if s.len() > 0 {
        lemma_path_segments_nonempty(s.drop_last());
    }
}

impl KvData {
    /// Whether the value is a string.
    pub fn is_string(&self) -> (r: bool)
        ensures
            r == (self@ is Str),
    {
        match self { KvData::String(_) => true, _ => false }
    }

    /// Whether the value is a wide string.
    pub fn is_wide_string(&self) -> (r: bool)
        ensures
            r == (self@ is Wide),
    {
        match self { KvData::WideString(_) => true, _ => false }
    }

    /// Whether the value is a binary string.
    pub fn is_binary(&self) -> (r: bool)
        ensures
            r == (self@ is Bytes),
    {
        match self { KvData::BinaryString(_) => true, _ => false }
    }

    /// Whether the value is a 32-bit int.
    pub fn is_int(&self) -> (r: bool)
        ensures
            r == (self@ is Int),
    {
        match self { KvData::Int(_) => true, _ => false }
    }

    /// Whether the value is a 64-bit int.
    pub fn is_int64(&self) -> (r: bool)
        ensures
            r == (self@ is Int64),
    {
        match self { KvData::Int64(_) => true, _ => false }
    }

    /// Whether the value is an unsigned 64-bit int.
    pub fn is_uint64(&self) -> (r: bool)
        ensures
            r == (self@ is UInt64),
    {
        match self { KvData::UInt64(_) => true, _ => false }
    }

    /// Whether the value is a float.
    pub fn is_float(&self) -> (r: bool)
        ensures
            r == (self@ is Float),
    {
        match self { KvData::Float(_) => true, _ => false }
    }

    /// Whether the value is a pointer.
    pub fn is_pointer(&self) -> (r: bool)
        ensures
            r == (self@ is Pointer),
    {
        match self { KvData::Pointer(_) => true, _ => false }
    }

    /// Whether the value is a color.
    pub fn is_color(&self) -> (r: bool)
        ensures
            r == (self@ is Color),
    {
        match self { KvData::Color(_) => true, _ => false }
    }

    /// Whether the value is a compound.
    pub fn is_compound(&self) -> (r: bool)
        ensures
            r == (self@ is Compound),
    {
        match self { KvData::Compound(_) => true, _ => false }
    }

    /// The text of a string value.
    pub fn as_str(&self) -> (r: Option<&str>)
        ensures
            match self@ {
                DataModel::Str(s) => r matches Some(x) && x@ == s,
                _ => r is None,
            },
    {
        match self { KvData::String(s) => Some(s.as_str()), _ => None }
    }

    /// The words of a wide string value.
    pub fn as_wide_string(&self) -> (r: Option<&[u16]>)
        ensures
            match self@ {
                DataModel::Wide(w) => r matches Some(x) && x@ == w,
                _ => r is None,
            },
    {
        match self { KvData::WideString(w) => Some(w.as_slice()), _ => None }
    }

    /// The bytes of a binary string value.
    pub fn as_binary(&self) -> (r: Option<&[u8]>)
        ensures
            match self@ {
                DataModel::Bytes(b) => r matches Some(x) && x@ == b,
                _ => r is None,
            },
    {
        match self { KvData::BinaryString(b) => Some(b.as_slice()), _ => None }
    }

    /// A 32-bit int value.
    pub fn as_int(&self) -> (r: Option<i32>)
        ensures
            r == (match self@ { DataModel::Int(v) => Some(v), _ => None::<i32> }),
    {
        match self { KvData::Int(v) => Some(*v), _ => None }
    }

    /// A 64-bit int value.
    pub fn as_int64(&self) -> (r: Option<i64>)
        ensures
            r == (match self@ { DataModel::Int64(v) => Some(v), _ => None::<i64> }),
    {
        match self { KvData::Int64(v) => Some(*v), _ => None }
    }

    /// An unsigned 64-bit int value.
    pub fn as_uint64(&self) -> (r: Option<u64>)
        ensures
            r == (match self@ { DataModel::UInt64(v) => Some(v), _ => None::<u64> }),
    {
        match self { KvData::UInt64(v) => Some(*v), _ => None }
    }

    /// The bits of a float value.
    pub fn as_float(&self) -> (r: Option<u32>)
        ensures
            r == (match self@ { DataModel::Float(v) => Some(v), _ => None::<u32> }),
    {
        match self { KvData::Float(v) => Some(*v), _ => None }
    }

    /// A pointer value.
    pub fn as_pointer(&self) -> (r: Option<usize>)
        ensures
            r == (match self@ { DataModel::Pointer(v) => Some(v), _ => None::<usize> }),
    {
        match self { KvData::Pointer(v) => Some(*v), _ => None }
    }

    /// A color value.
    pub fn as_color(&self) -> (r: Option<u32>)
        ensures
            r == (match self@ { DataModel::Color(v) => Some(v), _ => None::<u32> }),
    {
        match self { KvData::Color(v) => Some(*v), _ => None }
    }

    /// The entries of a compound value.
    pub fn as_compound(&self) -> (r: Option<&[KvEntry]>)
        ensures
            match self@ {
                DataModel::Compound(es) => r matches Some(x) && entries_model(x@) == es,
                _ => r is None,
            },
    {
        match self {
            KvData::Compound(es) => {
                proof {
                    lemma_compound_model(*es);
                }
                Some(es.as_slice())
            },
            _ => None,
        }
    }

    /// The value as an `i32`: numbers cast with `as`, strings parsed.
    pub fn to_int(&self) -> (r: Option<i32>)
        ensures
            r == to_int_model(self@),
    {
        match self {
            KvData::Int(v) => Some(*v),
            KvData::Int64(v) => {
                Some(*v as i32)
            },
            KvData::UInt64(v) => {
                Some(*v as i32)
            },
            KvData::Float(b) => Some(float_bits_to_i32(*b)),
            KvData::String(s) => {
                let chars = strings::chars_of(s.as_str());
                number::parse_i32(&chars)
            },
            _ => None,
        }
    }

    /// The value as a `u64`: numbers cast with `as`, strings parsed.
    pub fn to_uint64(&self) -> (r: Option<u64>)
        ensures
            r == to_uint64_model(self@),
    {
        match self {
            KvData::UInt64(v) => Some(*v),
            KvData::Int(v) => {
                Some(*v as u64)
            },
            KvData::Int64(v) => {
                Some(*v as u64)
            },
            KvData::Float(b) => Some(float_bits_to_u64(*b)),
            KvData::String(s) => {
                let chars = strings::chars_of(s.as_str());
                number::parse_u64_radix(&chars, 10)
            },
            _ => None,
        }
    }

    /// The value itself: it owns everything it holds.
    pub fn into_owned(self) -> (r: KvData)
        ensures
            r@ == self@,
    {
        self
    }
}

impl KvEntry {
    /// The entry itself: it owns everything it holds.
    pub fn into_owned(self) -> (r: KvEntry)
        ensures
            r@ == self@,
    {
        self
    }

    /// The entries below this one (none unless it holds a compound).
    fn children(&self) -> (r: &[KvEntry])
        ensures
            entries_model(r@) == children_of(self@.data),
    {
        match &self.data {
            KvData::Compound(es) => {
                proof {
                    lemma_compound_model(*es);
                }
                es.as_slice()
            },
            _ => {
                let r: &[KvEntry] = &[];
                assert(entries_model(r@) =~= Seq::<EntryModel>::empty());
                r
            },
        }
    }

    /// The entries below this one, in order.
    pub fn iter(&self) -> (r: Vec<&KvEntry>)
        ensures
            refs_model(r@) == children_of(self@.data),
    {
        let kids = self.children();
        let mut out: Vec<&KvEntry> = Vec::new();
        let mut i: usize = 0;
        while i < kids.len()
            invariant
                i <= kids@.len(),
                refs_model(out@) == entries_model(kids@).take(i as int),
            decreases kids@.len() - i,
        {
            proof {
                lemma_refs_push(out@, &kids@[i as int]);
                lemma_take_push(entries_model(kids@), i as int);
            }
            out.push(&kids[i]);
            i += 1;
        }
        assert(entries_model(kids@).take(kids@.len() as int) =~= entries_model(kids@));
        out
    }

    /// The entries below this one that hold compounds, in order.
    pub fn iter_compounds(&self) -> (r: Vec<&KvEntry>)
        ensures
            refs_model(r@) == children_of(self@.data).filter(compound_test()),
    {
        let kids = self.children();
        let ghost m = entries_model(kids@);
        let ghost p = compound_test();
        let mut out: Vec<&KvEntry> = Vec::new();
        let mut i: usize = 0;
        assert(m.take(0) =~= Seq::<EntryModel>::empty());
        proof {
            reveal(Seq::filter);
        }
        while i < kids.len()
            invariant
                i <= kids@.len(),
                m == entries_model(kids@),
                p == compound_test(),
                refs_model(out@) == m.take(i as int).filter(p),
            decreases kids@.len() - i,
        {
            proof {
                lemma_take_push(m, i as int);
                m.take(i as int).lemma_filter_push(m[i as int], p);
                lemma_refs_push(out@, &kids@[i as int]);
                assert(m[i as int] == kids@[i as int]@);
            }
            if kids[i].data.is_compound() {
                out.push(&kids[i]);
            }
            i += 1;
        }
        assert(m.take(kids@.len() as int) =~= m);
        out
    }

    /// The entries below this one that hold other values than compounds, in order.
    pub fn iter_values(&self) -> (r: Vec<&KvEntry>)
        ensures
            refs_model(r@) == children_of(self@.data).filter(value_test()),
    {
        let kids = self.children();
        let ghost m = entries_model(kids@);
        let ghost p = value_test();
        let mut out: Vec<&KvEntry> = Vec::new();
        let mut i: usize = 0;
        assert(m.take(0) =~= Seq::<EntryModel>::empty());
        proof {
            reveal(Seq::filter);
        }
        while i < kids.len()
            invariant
                i <= kids@.len(),
                m == entries_model(kids@),
                p == value_test(),
                refs_model(out@) == m.take(i as int).filter(p),
            decreases kids@.len() - i,
        {
            proof {
                lemma_take_push(m, i as int);
                m.take(i as int).lemma_filter_push(m[i as int], p);
                lemma_refs_push(out@, &kids@[i as int]);
                assert(m[i as int] == kids@[i as int]@);
            }
            if !kids[i].data.is_compound() {
                out.push(&kids[i]);
            }
            i += 1;
        }
        assert(m.take(kids@.len() as int) =~= m);
        out
    }

    /// The entries below this one named `name`, in order.
    pub fn find_all_keys(&self, name: &str) -> (r: Vec<&KvEntry>)
        ensures
            refs_model(r@) == children_of(self@.data).filter(named(name@)),
    {
        let kids = self.children();
        let key = strings::owned(name);
        let ghost m = entries_model(kids@);
        let ghost p = named(name@);
        let mut out: Vec<&KvEntry> = Vec::new();
        let mut i: usize = 0;
        assert(m.take(0) =~= Seq::<EntryModel>::empty());
        proof {
            reveal(Seq::filter);
        }
        while i < kids.len()
            invariant
                i <= kids@.len(),
                m == entries_model(kids@),
                p == named(name@),
                key@ == name@,
                refs_model(out@) == m.take(i as int).filter(p),
            decreases kids@.len() - i,
        {
            proof {
                lemma_take_push(m, i as int);
                m.take(i as int).lemma_filter_push(m[i as int], p);
                lemma_refs_push(out@, &kids@[i as int]);
                assert(m[i as int] == kids@[i as int]@);
            }
            if strings::same_text(&kids[i].name, &key) {
                out.push(&kids[i]);
            }
            i += 1;
        }
        assert(m.take(kids@.len() as int) =~= m);
        out
    }

    /// The entries of all compounds below this one named `name`, one compound after another.
    pub fn iter_all_in(&self, name: &str) -> (r: Vec<&KvEntry>)
        ensures
            refs_model(r@) == all_in(children_of(self@.data), name@),
    {
        let kids = self.children();
        let key = strings::owned(name);
        let ghost m = entries_model(kids@);
        let mut out: Vec<&KvEntry> = Vec::new();
        let mut i: usize = 0;
        assert(refs_model(out@) =~= all_in(m.take(0), name@));
        while i < kids.len()
            invariant
                i <= kids@.len(),
                m == entries_model(kids@),
                key@ == name@,
                refs_model(out@) == all_in(m.take(i as int), name@),
            decreases kids@.len() - i,
        {
            assert(m.take(i + 1).drop_last() =~= m.take(i as int));
            let e = &kids[i];
            if strings::same_text(&e.name, &key) {
                match &e.data {
                    KvData::Compound(inner) => {
                        proof {
                            lemma_compound_model(*inner);
                        }
                        let ghost before = refs_model(out@);
                        let mut j: usize = 0;
                        while j < inner.len()
                            invariant
                                j <= inner@.len(),
                                refs_model(out@) == before + entries_model(inner@).take(j as int),
                            decreases inner@.len() - j,
                        {
                            proof {
                                lemma_refs_push(out@, &inner@[j as int]);
                                lemma_take_push(entries_model(inner@), j as int);
                                assert(before + entries_model(inner@).take(j + 1) =~= (before
                                    + entries_model(inner@).take(j as int)).push(inner@[j as int]@));
                            }
                            out.push(&inner[j]);
                            j += 1;
                        }
                        assert(entries_model(inner@).take(inner@.len() as int) =~= entries_model(inner@));
                    },
                    _ => {},
                }
            }
            i += 1;
        }
        assert(m.take(kids@.len() as int) =~= m);
        out
    }

    /// The first entry below this one named `name`.
    pub fn get(&self, name: &str) -> (r: Option<&KvEntry>)
        ensures
            match get_model(self@, name@) {
                Some(c) => r matches Some(x) && x@ == c,
                None => r is None,
            },
    {
        let kids = self.children();
        let key = strings::owned(name);
        let ghost m = entries_model(kids@);
        let mut i: usize = 0;
        while i < kids.len()
            invariant
                i <= kids@.len(),
                m == entries_model(kids@),
                key@ == name@,
                m == children_of(self@.data),
                first_named_from(m, name@, 0) == first_named_from(m, name@, i as int),
            decreases kids@.len() - i,
        {
            assert(m[i as int] == kids@[i as int]@);
            if strings::same_text(&kids[i].name, &key) {
                assert(first_named_from(m, name@, i as int) == Some(i as int));
                assert(get_model(self@, name@) == Some(kids@[i as int]@));
                return Some(&kids[i]);
            }
            i += 1;
        }
        None
    }

    /// The text of the string value named `name` below this entry.
    pub fn get_str(&self, name: &str) -> (r: Option<&str>)
        ensures
            match get_model(self@, name@) {
                Some(c) => match c.data {
                    DataModel::Str(s) => r matches Some(x) && x@ == s,
                    _ => r is None,
                },
                None => r is None,
            },
    {
        match self.get(name) {
            Some(e) => e.data.as_str(),
            None => None,
        }
    }

    /// The value named `name` below this entry, as an `i32`.
    pub fn get_int(&self, name: &str) -> (r: Option<i32>)
        ensures
            r == match get_model(self@, name@) {
                Some(c) => to_int_model(c.data),
                None => None,
            },
    {
        match self.get(name) {
            Some(e) => e.data.to_int(),
            None => None,
        }
    }

    /// The value named `name` below this entry, as a `u64`.
    pub fn get_uint64(&self, name: &str) -> (r: Option<u64>)
        ensures
            r == match get_model(self@, name@) {
                Some(c) => to_uint64_model(c.data),
                None => None,
            },
    {
        match self.get(name) {
            Some(e) => e.data.to_uint64(),
            None => None,
        }
    }

    /// A compound named `name` holding copies of the entries of all compounds named `name`
    /// below this entry.
    pub fn get_all(&self, name: &str) -> (r: KvEntry)
        ensures
            r@ == (EntryModel { name: name@, data: DataModel::Compound(all_in(children_of(self@.data), name@)) }),
    {
        let refs = self.iter_all_in(name);
        let mut out: Vec<KvEntry> = Vec::new();
        let mut i: usize = 0;
        while i < refs.len()
            invariant
                i <= refs@.len(),
                entries_model(out@) == refs_model(refs@).take(i as int),
            decreases refs@.len() - i,
        {
            let c = refs[i].clone();
            proof {
                lemma_entries_push(out@, c);
                assert(refs_model(refs@).take(i + 1) =~= refs_model(refs@).take(i as int).push(refs@[i as int]@));
            }
            out.push(c);
            i += 1;
        }
        assert(refs_model(refs@).take(refs@.len() as int) =~= refs_model(refs@));
        proof {
            lemma_compound_model(out);
        }
        KvEntry { name: strings::owned(name), data: KvData::Compound(out) }
    }

    /// The entry reached from this one by following the `/`-separated names of `path`.
    pub fn get_path(&self, path: &str) -> (r: Option<&KvEntry>)
        ensures
            match path_model(self@, path_segments(path@)) {
                Some(c) => r matches Some(x) && x@ == c,
                None => r is None,
            },
    {
        let segs = split_path(path);
        let ghost ss = path_segments(path@);
        let mut current = self;
        let mut i: usize = 0;
        assert(ss.skip(0) =~= ss);
        while i < segs.len()
            invariant
                i <= segs@.len() == ss.len(),
                ss == path_segments(path@),
                forall|k: int| 0 <= k < segs@.len() ==> #[trigger] segs@[k]@ == ss[k],
                path_model(self@, ss) == path_model(current@, ss.skip(i as int)),
            decreases segs@.len() - i,
        {
            assert(ss.skip(i as int)[0] == ss[i as int]);
            assert(ss.skip(i as int).drop_first() =~= ss.skip(i + 1));
            match current.get(segs[i].as_str()) {
                Some(next) => {
                    current = next;
                },
                None => {
                    assert(path_model(current@, ss.skip(i as int)) == None::<EntryModel>);
                    return None;
                },
            }
            i += 1;
        }
        assert(ss.skip(segs@.len() as int) =~= Seq::<Seq<char>>::empty());
        Some(current)
    }

    /// Whether nothing is below this entry.
    pub fn is_empty(&self) -> (r: bool)
        ensures
            r == (children_of(self@.data).len() == 0),
    {
        self.children().len() == 0
    }
}

/// The segments of a path, split at each `/`.
fn split_path(path: &str) -> (r: Vec<String>)
    ensures
        r@.len() == path_segments(path@).len(),
        forall|k: int| 0 <= k < r@.len() ==> #[trigger] r@[k]@ == path_segments(path@)[k],
{
    let chars = strings::chars_of(path);
    let mut segs: Vec<String> = Vec::new();
    let mut cur = String::new();
    let mut i: usize = 0;
    assert(chars@.take(0) =~= Seq::<char>::empty());
    while i < chars.len()
        invariant
            i <= chars@.len(),
            chars@ == path@,
            segs@.len() + 1 == path_segments(chars@.take(i as int)).len(),
            forall|k: int| 0 <= k < segs@.len() ==> #[trigger] segs@[k]@ == path_segments(chars@.take(i as int))[k],
            cur@ == path_segments(chars@.take(i as int)).last(),
        decreases chars@.len() - i,
    {
        let c = chars[i];
        let ghost prev = path_segments(chars@.take(i as int));
        proof {
            assert(chars@.take(i + 1).drop_last() =~= chars@.take(i as int));
            lemma_path_segments_nonempty(chars@.take(i as int));
        }
        if c == '/' {
            let done = cur;
            segs.push(done);
            cur = String::new();
        } else {
            strings::push_char(&mut cur, c);
        }
        i += 1;
    }
    assert(chars@.take(chars@.len() as int) =~= chars@);
    segs.push(cur);
    segs
}

} // verus!
