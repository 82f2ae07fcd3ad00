use vstd::prelude::*;
use core::marker::PhantomData;
use crate::binary::Dialect;
use crate::binary::write::entry_bytes;
use crate::error::{Error, ErrorModel};
use crate::number::{self, decimal, signed_decimal};
use crate::strings;
use crate::text::write::{entries_float_leaves, entries_float_values, entry_text, float_leaves, nesting, table_model};
use crate::types::{DataModel, EntryModel, KvData, KvEntry, entries_model, lemma_compound_model};

verus! {

/// The text format, which is human readable.
pub struct Text;

/// The binary format, which is not.
pub struct Binary;

/// What a format makes of a finished value.
pub trait Output {
    type Ok;

    /// Whether the result of `finish(name, data, dialect, floats)` is `r`.
    spec fn finished(
        name: Seq<char>,
        data: DataModel,
        dialect: Dialect,
        floats: Seq<(u32, Seq<char>)>,
        r: Result<Self::Ok, Error>,
    ) -> bool;

    /// Whether the format is meant to be read by people.
    spec fn human() -> bool;

    /// Whether the format is meant to be read by people.
    fn is_human_readable() -> (r: bool)
        ensures
            r == Self::human(),
    ;

    /// The output for one entry named `name` holding `data`: floats are written by the
    /// texts that `floats` gives for their bits, binary output uses `dialect`.
    fn finish(name: &str, data: &KvData, dialect: Dialect, floats: &Vec<(u32, String)>) -> (r: Result<Self::Ok, Error>)
        requires
            nesting(data@) < usize::MAX,
        ensures
            Self::finished(name@, data@, dialect, table_model(floats@), r),
    ;
}

impl Output for Text {
    type Ok = String;

    open spec fn finished(
        name: Seq<char>,
        data: DataModel,
        dialect: Dialect,
        floats: Seq<(u32, Seq<char>)>,
        r: Result<String, Error>,
    ) -> bool {
        match entry_text(EntryModel { name, data }, 0, floats) {
            Ok(t) => r matches Ok(s) && s@ == t,
            Err(e) => r matches Err(x) && x@ == e,
        }
    }

    open spec fn human() -> bool {
        true
    }

    fn is_human_readable() -> (r: bool) {
        true
    }

    fn finish(name: &str, data: &KvData, dialect: Dialect, floats: &Vec<(u32, String)>) -> (r: Result<String, Error>) {
        crate::text::write::text_to_string(name, data, floats)
    }
}

impl Output for Binary {
    type Ok = Vec<u8>;

    open spec fn finished(
        name: Seq<char>,
        data: DataModel,
        dialect: Dialect,
        floats: Seq<(u32, Seq<char>)>,
        r: Result<Vec<u8>, Error>,
    ) -> bool {
        match entry_bytes(EntryModel { name, data }, dialect) {
            Ok(b) => r matches Ok(v) && v@ == b,
            Err(e) => r matches Err(x) && x@ == e,
        }
    }

    open spec fn human() -> bool {
        false
    }

    fn is_human_readable() -> (r: bool) {
        false
    }

    fn finish(name: &str, data: &KvData, dialect: Dialect, floats: &Vec<(u32, String)>) -> (r: Result<Vec<u8>, Error>) {
        crate::binary::write::binary_to_vec(name, data, dialect)
    }
}

/// The value a `bool` is serialized as: an int, 1 for `true` and 0 for `false`.
pub open spec fn bool_value(value: bool) -> DataModel {
    DataModel::Int(if value { 1 } else { 0 })
}

/// The value an `i64` is serialized as: an int where it fits in 32 bits, else a 64-bit int.
pub open spec fn i64_value(value: i64) -> DataModel {
    if i32::MIN <= value <= i32::MAX { DataModel::Int(value as i32) } else { DataModel::Int64(value) }
}

/// The value a `u64` (or `u32`) is serialized as by `u64_data`: an int where it fits in
/// 32 signed bits, else an unsigned 64-bit int.
pub open spec fn u64_value(value: u64) -> DataModel {
    if value <= i32::MAX { DataModel::Int(value as i32) } else { DataModel::UInt64(value) }
}

/// `true` as an int 1, `false` as 0.
pub fn bool_data(value: bool) -> (d: KvData)
    ensures
        d@ == bool_value(value),
{
    KvData::Int(if value { 1 } else { 0 })
}

/// A 64-bit integer: an int where it fits in 32 bits, else a 64-bit int.
pub fn i64_data(value: i64) -> (d: KvData)
    ensures
        d@ == i64_value(value),
{
    if i32::MIN as i64 <= value && value <= i32::MAX as i64 {
        KvData::Int(value as i32)
    } else {
        KvData::Int64(value)
    }
}

/// An unsigned integer: an int where it fits in 32 signed bits, else an unsigned 64-bit int.
pub fn u64_data(value: u64) -> (d: KvData)
    ensures
        d@ == u64_value(value),
{
    if value <= i32::MAX as u64 {
        KvData::Int(value as i32)
    } else {
        KvData::UInt64(value)
    }
}

/// A text value.
pub fn string_data(value: String) -> (d: KvData)
    ensures
        d@ == DataModel::Str(value@),
{
    KvData::String(value)
}

/// An enum variant with content: a compound whose one entry is named after the variant.
pub fn variant_data(variant: &str, data: KvData) -> (d: KvData)
    ensures
        d@ == DataModel::Compound(seq![EntryModel { name: variant@, data: data@ }]),
{
    let mut v: Vec<KvEntry> = Vec::new();
    v.push(KvEntry { name: strings::owned(variant), data });
    proof {
        lemma_compound_model(v);
        assert(entries_model(v@) =~= seq![v@[0]@]);
    }
    KvData::Compound(v)
}

/// The key of a map entry whose key is a `bool`.
pub fn bool_key(value: bool) -> (s: String)
    ensures
        s@ == if value { "true"@ } else { "false"@ },
{
    if value { String::from_str("true") } else { String::from_str("false") }
}

/// The key of a map entry whose key is a signed integer: its decimal text.
pub fn int_key(value: i64) -> (s: String)
    ensures
        s@ == signed_decimal(value as int),
{
    number::format_i64(value)
}

/// The key of a map entry whose key is an unsigned integer: its decimal text.
pub fn uint_key(value: u64) -> (s: String)
    ensures
        s@ == decimal(value as nat),
{
    number::format_u64(value)
}

/// The key of a map entry whose key is a `char`.
pub fn char_key(value: char) -> (s: String)
    ensures
        s@ == seq![value],
{
    let mut s = String::new();
    strings::push_char(&mut s, value);
    assert(s@ =~= seq![value]);
    s
}

/// The serializer of a whole value: a root entry named `name`.
pub struct Serializer<'a, F> {
    name: &'a str,
    dialect: Dialect,
    format: PhantomData<F>,
}

impl<'a, F> Serializer<'a, F> {
    /// The name of the root entry.
    pub closed spec fn name_of(&self) -> Seq<char> {
        self.name@
    }

    /// The binary layout used.
    pub closed spec fn dialect_of(&self) -> Dialect {
        self.dialect
    }

    /// A serializer whose root entry is named `name`, in the default binary layout.
    pub fn new(name: &'a str) -> (s: Self)
        ensures
            s.name_of() == name@,
            s.dialect_of() == Dialect::Vdf,
    {
        Serializer { name, dialect: Dialect::Vdf, format: PhantomData }
    }

    /// A serializer whose root entry is named `name`, in the binary layout `dialect`.
    pub fn with_dialect(name: &'a str, dialect: Dialect) -> (s: Self)
        ensures
            s.name_of() == name@,
            s.dialect_of() == dialect,
    {
        Serializer { name, dialect, format: PhantomData }
    }

    /// The name of the root entry.
    pub fn name(&self) -> (r: &'a str)
        ensures
            r@ == self.name_of(),
    {
        self.name
    }

    /// The binary layout used.
    pub fn dialect(&self) -> (r: Dialect)
        ensures
            r == self.dialect_of(),
    {
        self.dialect
    }

    /// A serializer of the root's entries, for a sequence.
    pub fn serialize_seq(self) -> (s: RootCompoundSerializer<'a, F>)
        ensures
            s.name_of() == self.name_of(),
            s.dialect_of() == self.dialect_of(),
            s.entries_of() == Seq::<EntryModel>::empty(),
            s.index_of() == 0,
    {
        RootCompoundSerializer { name: self.name, dialect: self.dialect, inner: CompoundSerializer::new() }
    }

    /// A serializer of the root's entries, for a map or a struct.
    pub fn serialize_map(self) -> (s: RootMapSerializer<'a, F>)
        ensures
            s.name_of() == self.name_of(),
            s.dialect_of() == self.dialect_of(),
            s.entries_of() == Seq::<EntryModel>::empty(),
            s.pending_key() is None,
    {
        RootMapSerializer { name: self.name, dialect: self.dialect, inner: MapSerializer::new() }
    }

    /// A serializer of the root's entries, for a tuple or struct variant.
    pub fn serialize_variant(self, variant: &'static str) -> (s: RootVariantSerializer<'a, F>)
        ensures
            s.name_of() == self.name_of(),
            s.dialect_of() == self.dialect_of(),
            s.variant_of() == variant@,
            s.entries_of() == Seq::<EntryModel>::empty(),
            s.index_of() == 0,
    {
        RootVariantSerializer { name: self.name, dialect: self.dialect, variant, inner: CompoundSerializer::new() }
    }
}

impl<'a, F: Output> Serializer<'a, F> {
    /// Whether the format is human readable.
    pub fn is_human_readable(&self) -> (r: bool)
        ensures
            r == F::human(),
    {
        F::is_human_readable()
    }

    /// The output for the root entry holding `data`.
    pub fn finish(self, data: &KvData, floats: &Vec<(u32, String)>) -> (r: Result<F::Ok, Error>)
        requires
            nesting(data@) < usize::MAX,
        ensures
            F::finished(self.name_of(), data@, self.dialect_of(), table_model(floats@), r),
    {
        F::finish(self.name, data, self.dialect, floats)
    }
}

/// Builds a compound from elements, naming them `0`, `1`, `2`, ... in order.
pub struct CompoundSerializer<F> {
    entries: Vec<KvEntry>,
    next_index: usize,
    format: PhantomData<F>,
}

impl<F> CompoundSerializer<F> {
    /// The entries built so far.
    pub closed spec fn entries_of(&self) -> Seq<EntryModel> {
        entries_model(self.entries@)
    }

    /// The index the next element is named by.
    pub closed spec fn index_of(&self) -> nat {
        self.next_index as nat
    }

    /// An empty compound.
    pub fn new() -> (s: Self)
        ensures
            s.entries_of() == Seq::<EntryModel>::empty(),
            s.index_of() == 0,
    {
        let s = CompoundSerializer { entries: Vec::new(), next_index: 0, format: PhantomData };
        assert(s.entries_of() =~= Seq::<EntryModel>::empty());
        s
    }

    /// Adds an entry named `key`.
    pub fn push(&mut self, key: String, data: KvData)
        ensures
            final(self).entries_of() == old(self).entries_of().push(EntryModel { name: key@, data: data@ }),
            final(self).index_of() == old(self).index_of(),
    {
        let ghost before = self.entries@;
        self.entries.push(KvEntry { name: key, data });
        assert(entries_model(self.entries@) =~= entries_model(before).push(EntryModel { name: key@, data: data@ }));
    }

    /// Adds an element, named by the next index in decimal.
    pub fn serialize_element(&mut self, data: KvData)
        requires
            old(self).index_of() < usize::MAX,
        ensures
            final(self).entries_of() == old(self).entries_of().push(
                EntryModel { name: decimal(old(self).index_of()), data: data@ },
            ),
            final(self).index_of() == old(self).index_of() + 1,
    {
        let key = number::format_u64(self.next_index as u64);
        self.next_index = self.next_index + 1;
        self.push(key, data);
    }

    /// The compound built.
    pub fn end(self) -> (r: Result<KvData, Error>)
        ensures
            r matches Ok(d) && d@ == DataModel::Compound(self.entries_of()),
    {
        proof {
            lemma_compound_model(self.entries);
        }
        Ok(KvData::Compound(self.entries))
    }
}

/// Builds a compound from keys and values given in turn, or from named fields.
pub struct MapSerializer<F> {
    entries: Vec<KvEntry>,
    next_key: Option<String>,
    format: PhantomData<F>,
}

impl<F> MapSerializer<F> {
    /// The entries built so far.
    pub closed spec fn entries_of(&self) -> Seq<EntryModel> {
        entries_model(self.entries@)
    }

    /// The key given and still waiting for its value.
    pub closed spec fn pending_key(&self) -> Option<Seq<char>> {
        match self.next_key {
            Some(k) => Some(k@),
            None => None,
        }
    }

    /// An empty map.
    pub fn new() -> (s: Self)
        ensures
            s.entries_of() == Seq::<EntryModel>::empty(),
            s.pending_key() is None,
    {
        let s = MapSerializer { entries: Vec::new(), next_key: None, format: PhantomData };
        assert(s.entries_of() =~= Seq::<EntryModel>::empty());
        s
    }

    /// Adds an entry named `key`.
    pub fn push(&mut self, key: String, data: KvData)
        ensures
            final(self).entries_of() == old(self).entries_of().push(EntryModel { name: key@, data: data@ }),
            final(self).pending_key() == old(self).pending_key(),
    {
        let ghost before = self.entries@;
        self.entries.push(KvEntry { name: key, data });
        assert(entries_model(self.entries@) =~= entries_model(before).push(EntryModel { name: key@, data: data@ }));
    }

    /// Records the key of the next entry; a key still waiting for its value is an error.
    pub fn serialize_key(&mut self, key: String) -> (r: Result<(), Error>)
        ensures
            old(self).pending_key() is None ==> r is Ok && final(self).pending_key() == Some(key@),
            old(self).pending_key() is Some ==> (r matches Err(e)
                && e@ == ErrorModel::Message("serialize_value was not called"@)
                && final(self).pending_key() == old(self).pending_key()),
            final(self).entries_of() == old(self).entries_of(),
    {
        if self.next_key.is_some() {
            return Err(Error::Message(String::from_str("serialize_value was not called")));
        }
        self.next_key = Some(key);
        Ok(())
    }

    /// Takes the key waiting for its value; with none waiting, an error.
    pub fn take_key(&mut self) -> (r: Result<String, Error>)
        ensures
            match old(self).pending_key() {
                Some(k) => r matches Ok(s) && s@ == k,
                None => r matches Err(e) && e@ == ErrorModel::Message("serialize_key was not called"@),
            },
            final(self).pending_key() is None,
            final(self).entries_of() == old(self).entries_of(),
    {
        match self.next_key.take() {
            Some(k) => Ok(k),
            None => Err(Error::Message(String::from_str("serialize_key was not called"))),
        }
    }

    /// Adds the value of the waiting key; with none waiting, an error.
    pub fn serialize_value(&mut self, data: KvData) -> (r: Result<(), Error>)
        ensures
            match old(self).pending_key() {
                Some(k) => r is Ok
                    && final(self).entries_of() == old(self).entries_of().push(EntryModel { name: k, data: data@ }),
                None => r matches Err(e) && e@ == ErrorModel::Message("serialize_key was not called"@)
                    && final(self).entries_of() == old(self).entries_of(),
            },
            final(self).pending_key() is None,
    {
        let key = self.take_key()?;
        self.push(key, data);
        Ok(())
    }

    /// Adds a struct field.
    pub fn serialize_field(&mut self, key: &str, data: KvData)
        ensures
            final(self).entries_of() == old(self).entries_of().push(EntryModel { name: key@, data: data@ }),
            final(self).pending_key() == old(self).pending_key(),
    {
        self.push(strings::owned(key), data);
    }

    /// The compound built; a key still waiting for its value is an error.
    pub fn end(self) -> (r: Result<KvData, Error>)
        ensures
            match self.pending_key() {
                None => r matches Ok(d) && d@ == DataModel::Compound(self.entries_of()),
                Some(_) => r matches Err(e) && e@ == ErrorModel::Message("serialize_value was not called"@),
            },
    {
        if self.next_key.is_some() {
            return Err(Error::Message(String::from_str("serialize_value was not called")));
        }
        proof {
            lemma_compound_model(self.entries);
        }
        Ok(KvData::Compound(self.entries))
    }
}

/// Builds the content of a tuple or struct variant, which ends wrapped in an entry named
/// after the variant.
pub struct VariantSerializer<F> {
    variant: &'static str,
    inner: CompoundSerializer<F>,
    fields_are_named: bool,
}

impl<F> VariantSerializer<F> {
    /// The variant's name.
    pub closed spec fn variant_of(&self) -> Seq<char> {
        self.variant@
    }

    /// The entries built so far.
    pub closed spec fn entries_of(&self) -> Seq<EntryModel> {
        self.inner.entries_of()
    }

    /// The index the next element is named by.
    pub closed spec fn index_of(&self) -> nat {
        self.inner.index_of()
    }

    /// Whether the variant's fields are named (a struct variant).
    pub closed spec fn named(&self) -> bool {
        self.fields_are_named
    }

    /// An empty variant; `fields_are_named` for a struct variant.
    pub fn new(variant: &'static str, fields_are_named: bool) -> (s: Self)
        ensures
            s.variant_of() == variant@,
            s.entries_of() == Seq::<EntryModel>::empty(),
            s.index_of() == 0,
            s.named() == fields_are_named,
    {
        VariantSerializer { variant, inner: CompoundSerializer::new(), fields_are_named }
    }

    /// Adds a tuple variant's field, named by the next index.
    pub fn serialize_element(&mut self, data: KvData)
        requires
            old(self).index_of() < usize::MAX,
        ensures
            final(self).entries_of() == old(self).entries_of().push(
                EntryModel { name: decimal(old(self).index_of()), data: data@ },
            ),
            final(self).index_of() == old(self).index_of() + 1,
            final(self).variant_of() == old(self).variant_of(),
            final(self).named() == old(self).named(),
    {
        self.inner.serialize_element(data);
    }

    /// Adds a struct variant's field; a variant whose fields are unnamed refuses it.
    pub fn serialize_field(&mut self, key: &str, data: KvData) -> (r: Result<(), Error>)
        ensures
            old(self).named() ==> r is Ok
                && final(self).entries_of() == old(self).entries_of().push(EntryModel { name: key@, data: data@ }),
            !old(self).named() ==> (r matches Err(e)
                && e@ == ErrorModel::Unsupported("unnamed struct variant field"@)
                && final(self).entries_of() == old(self).entries_of()),
            final(self).index_of() == old(self).index_of(),
            final(self).variant_of() == old(self).variant_of(),
            final(self).named() == old(self).named(),
    {
        if !self.fields_are_named {
            return Err(Error::Unsupported("unnamed struct variant field"));
        }
        self.inner.push(strings::owned(key), data);
        Ok(())
    }

    /// The variant: a compound whose one entry, named after it, holds its fields.
    pub fn end(self) -> (r: Result<KvData, Error>)
        ensures
            r matches Ok(d) && d@ == DataModel::Compound(
                seq![EntryModel { name: self.variant_of(), data: DataModel::Compound(self.entries_of()) }],
            ),
    {
        let inner = self.inner.end()?;
        Ok(variant_data(self.variant, inner))
    }
}

/// The serializer of a root sequence.
pub struct RootCompoundSerializer<'a, F> {
    name: &'a str,
    dialect: Dialect,
    inner: CompoundSerializer<F>,
}

impl<'a, F> RootCompoundSerializer<'a, F> {
    pub closed spec fn name_of(&self) -> Seq<char> {
        self.name@
    }

    pub closed spec fn dialect_of(&self) -> Dialect {
        self.dialect
    }

    pub closed spec fn entries_of(&self) -> Seq<EntryModel> {
        self.inner.entries_of()
    }

    pub closed spec fn index_of(&self) -> nat {
        self.inner.index_of()
    }

    /// Adds an element, named by the next index.
    pub fn serialize_element(&mut self, data: KvData)
        requires
            old(self).index_of() < usize::MAX,
        ensures
            final(self).entries_of() == old(self).entries_of().push(
                EntryModel { name: decimal(old(self).index_of()), data: data@ },
            ),
            final(self).index_of() == old(self).index_of() + 1,
            final(self).name_of() == old(self).name_of(),
            final(self).dialect_of() == old(self).dialect_of(),
    {
        self.inner.serialize_element(data);
    }
}

impl<'a, F> RootCompoundSerializer<'a, F> {
    /// The bits of the floats in the elements so far, in the order they are written.
    pub fn float_values(&self) -> (r: Vec<u32>)
        ensures
            r@ == float_leaves(DataModel::Compound(self.entries_of())),
    {
        entries_float_values(&self.inner.entries)
    }
}

impl<'a, F: Output> RootCompoundSerializer<'a, F> {
    /// The output for the root entry holding the elements.
    pub fn end(self, floats: &Vec<(u32, String)>) -> (r: Result<F::Ok, Error>)
        requires
            nesting(DataModel::Compound(self.entries_of())) < usize::MAX,
        ensures
            F::finished(self.name_of(), DataModel::Compound(self.entries_of()), self.dialect_of(), table_model(floats@), r),
    {
        let data = self.inner.end()?;
        F::finish(self.name, &data, self.dialect, floats)
    }
}

/// The serializer of a root map or struct.
pub struct RootMapSerializer<'a, F> {
    name: &'a str,
    dialect: Dialect,
    inner: MapSerializer<F>,
}

impl<'a, F> RootMapSerializer<'a, F> {
    pub closed spec fn name_of(&self) -> Seq<char> {
        self.name@
    }

    pub closed spec fn dialect_of(&self) -> Dialect {
        self.dialect
    }

    pub closed spec fn entries_of(&self) -> Seq<EntryModel> {
        self.inner.entries_of()
    }

    pub closed spec fn pending_key(&self) -> Option<Seq<char>> {
        self.inner.pending_key()
    }

    /// Records the key of the next entry; a key still waiting for its value is an error.
    pub fn serialize_key(&mut self, key: String) -> (r: Result<(), Error>)
        ensures
            old(self).pending_key() is None ==> r is Ok && final(self).pending_key() == Some(key@),
            old(self).pending_key() is Some ==> (r matches Err(e)
                && e@ == ErrorModel::Message("serialize_value was not called"@)
                && final(self).pending_key() == old(self).pending_key()),
            final(self).entries_of() == old(self).entries_of(),
            final(self).name_of() == old(self).name_of(),
            final(self).dialect_of() == old(self).dialect_of(),
    {
        self.inner.serialize_key(key)
    }

    /// Adds the value of the waiting key; with none waiting, an error.
    pub fn serialize_value(&mut self, data: KvData) -> (r: Result<(), Error>)
        ensures
            match old(self).pending_key() {
                Some(k) => r is Ok
                    && final(self).entries_of() == old(self).entries_of().push(EntryModel { name: k, data: data@ }),
                None => r matches Err(e) && e@ == ErrorModel::Message("serialize_key was not called"@)
                    && final(self).entries_of() == old(self).entries_of(),
            },
            final(self).pending_key() is None,
            final(self).name_of() == old(self).name_of(),
            final(self).dialect_of() == old(self).dialect_of(),
    {
        self.inner.serialize_value(data)
    }

    /// Takes the key waiting for its value; with none waiting, an error.
    pub fn take_key(&mut self) -> (r: Result<String, Error>)
        ensures
            match old(self).pending_key() {
                Some(k) => r matches Ok(s) && s@ == k,
                None => r matches Err(e) && e@ == ErrorModel::Message("serialize_key was not called"@),
            },
            final(self).pending_key() is None,
            final(self).entries_of() == old(self).entries_of(),
            final(self).name_of() == old(self).name_of(),
            final(self).dialect_of() == old(self).dialect_of(),
    {
        self.inner.take_key()
    }

    /// Adds an entry named `key`.
    pub fn push(&mut self, key: String, data: KvData)
        ensures
            final(self).entries_of() == old(self).entries_of().push(EntryModel { name: key@, data: data@ }),
            final(self).pending_key() == old(self).pending_key(),
            final(self).name_of() == old(self).name_of(),
            final(self).dialect_of() == old(self).dialect_of(),
    {
        self.inner.push(key, data);
    }

    /// Adds a struct field.
    pub fn serialize_field(&mut self, key: &str, data: KvData)
        ensures
            final(self).entries_of() == old(self).entries_of().push(EntryModel { name: key@, data: data@ }),
            final(self).pending_key() == old(self).pending_key(),
            final(self).name_of() == old(self).name_of(),
            final(self).dialect_of() == old(self).dialect_of(),
    {
        self.inner.serialize_field(key, data);
    }
}

impl<'a, F> RootMapSerializer<'a, F> {
    /// The bits of the floats in the entries so far, in the order they are written.
    pub fn float_values(&self) -> (r: Vec<u32>)
        ensures
            r@ == float_leaves(DataModel::Compound(self.entries_of())),
    {
        entries_float_values(&self.inner.entries)
    }
}

impl<'a, F: Output> RootMapSerializer<'a, F> {
    /// The output for the root entry holding the map; a key still waiting for its value is
    /// an error.
    pub fn end(self, floats: &Vec<(u32, String)>) -> (r: Result<F::Ok, Error>)
        requires
            nesting(DataModel::Compound(self.entries_of())) < usize::MAX,
        ensures
            match self.pending_key() {
                None => F::finished(
                    self.name_of(),
                    DataModel::Compound(self.entries_of()),
                    self.dialect_of(),
                    table_model(floats@),
                    r,
                ),
                Some(_) => r matches Err(e) && e@ == ErrorModel::Message("serialize_value was not called"@),
            },
    {
        let data = self.inner.end()?;
        F::finish(self.name, &data, self.dialect, floats)
    }
}

/// The serializer of a root tuple or struct variant.
pub struct RootVariantSerializer<'a, F> {
    name: &'a str,
    dialect: Dialect,
    variant: &'static str,
    inner: CompoundSerializer<F>,
}

impl<'a, F> RootVariantSerializer<'a, F> {
    pub closed spec fn name_of(&self) -> Seq<char> {
        self.name@
    }

    pub closed spec fn dialect_of(&self) -> Dialect {
        self.dialect
    }

    pub closed spec fn variant_of(&self) -> Seq<char> {
        self.variant@
    }

    pub closed spec fn entries_of(&self) -> Seq<EntryModel> {
        self.inner.entries_of()
    }

    pub closed spec fn index_of(&self) -> nat {
        self.inner.index_of()
    }

    /// The value the root entry holds: a compound whose one entry, named after the variant,
    /// holds the fields.
    pub open spec fn value_of(&self) -> DataModel {
        DataModel::Compound(seq![EntryModel { name: self.variant_of(), data: DataModel::Compound(self.entries_of()) }])
    }

    /// Adds a tuple variant's field, named by the next index.
    pub fn serialize_element(&mut self, data: KvData)
        requires
            old(self).index_of() < usize::MAX,
        ensures
            final(self).entries_of() == old(self).entries_of().push(
                EntryModel { name: decimal(old(self).index_of()), data: data@ },
            ),
            final(self).index_of() == old(self).index_of() + 1,
            final(self).name_of() == old(self).name_of(),
            final(self).dialect_of() == old(self).dialect_of(),
            final(self).variant_of() == old(self).variant_of(),
    {
        self.inner.serialize_element(data);
    }

    /// Adds a struct variant's field.
    pub fn serialize_field(&mut self, key: &str, data: KvData)
        ensures
            final(self).entries_of() == old(self).entries_of().push(EntryModel { name: key@, data: data@ }),
            final(self).index_of() == old(self).index_of(),
            final(self).name_of() == old(self).name_of(),
            final(self).dialect_of() == old(self).dialect_of(),
            final(self).variant_of() == old(self).variant_of(),
    {
        self.inner.push(strings::owned(key), data);
    }
}

impl<'a, F> RootVariantSerializer<'a, F> {
    /// The bits of the floats in the fields so far, in the order they are written.
    pub fn float_values(&self) -> (r: Vec<u32>)
        ensures
            r@ == float_leaves(self.value_of()),
    {
        let r = entries_float_values(&self.inner.entries);
        proof {
            let inner = EntryModel { name: self.variant_of(), data: DataModel::Compound(self.entries_of()) };
            assert(seq![inner].drop_first() =~= Seq::<EntryModel>::empty());
            assert(entries_float_leaves(seq![inner]) == float_leaves(inner.data) + entries_float_leaves(Seq::<EntryModel>::empty()));
            assert(entries_float_leaves(seq![inner]) =~= float_leaves(inner.data));
        }
        r
    }
}

impl<'a, F: Output> RootVariantSerializer<'a, F> {
    /// The output for the root entry holding the variant.
    pub fn end(self, floats: &Vec<(u32, String)>) -> (r: Result<F::Ok, Error>)
        requires
            nesting(self.value_of()) < usize::MAX,
        ensures
            F::finished(self.name_of(), self.value_of(), self.dialect_of(), table_model(floats@), r),
    {
        let inner = self.inner.end()?;
        let data = variant_data(self.variant, inner);
        F::finish(self.name, &data, self.dialect, floats)
    }
}

} // verus!
