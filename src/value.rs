use vstd::prelude::*;
use vstd::utf8::encode_utf8;

use crate::header::{header_value, lemma_header_round_trip, MAX_LEN};
use crate::kind::{type_of_tag, Type, Typed};
use crate::varint::{
    is_prefix, lemma_spells_unique, lemma_varint_shape, lemma_varint_spells, spelled, spells, varint,
};

verus! {

/// A value that the format can hold. A double is held as the bits of its
/// IEEE-754 binary64 form.
#[derive(Debug)]
pub enum Value {
    String(String),
    Buffer(Vec<u8>),
    Integer(i32),
    Double(u64),
    Array(Vec<Value>),
    Object(Vec<(String, Value)>),
    Boolnull(Option<bool>),
    Reserved(u64, Vec<u8>),
}

/// The mathematical content of a `Value`.
pub enum Model {
    String(Seq<char>),
    Buffer(Seq<u8>),
    Integer(i32),
    Double(u64),
    Array(Seq<Model>),
    Object(Seq<(Seq<char>, Model)>),
    Boolnull(Option<bool>),
    Reserved(u64, Seq<u8>),
}

/// The model of a value.
pub open spec fn model_of(v: Value) -> Model
    decreases v,
{
    match v {
        Value::String(s) => Model::String(s@),
        Value::Buffer(b) => Model::Buffer(b@),
        Value::Integer(i) => Model::Integer(i),
        Value::Double(d) => Model::Double(d),
        Value::Array(items) => Model::Array(models_of(items@)),
        Value::Object(entries) => Model::Object(entry_models_of(entries@)),
        Value::Boolnull(b) => Model::Boolnull(b),
        Value::Reserved(d, b) => Model::Reserved(d, b@),
    }
}

/// The models of a sequence of values.
pub open spec fn models_of(s: Seq<Value>) -> Seq<Model>
    decreases s,
{
    if s.len() == 0 {
        Seq::empty()
    } else {
        models_of(s.drop_last()).push(model_of(s.last()))
    }
}

/// The models of a sequence of object entries.
pub open spec fn entry_models_of(s: Seq<(String, Value)>) -> Seq<(Seq<char>, Model)>
    decreases s,
{
    if s.len() == 0 {
        Seq::empty()
    } else {
        entry_models_of(s.drop_last()).push((s.last().0@, model_of(s.last().1)))
    }
}

impl View for Value {
    type V = Model;

    open spec fn view(&self) -> Model {
        model_of(*self)
    }
}

/// The models of a sequence are the model of each of its values.
pub proof fn lemma_models_of(s: Seq<Value>)
    ensures
        models_of(s).len() == s.len(),
        forall|i: int| 0 <= i < s.len() ==> #[trigger] models_of(s)[i] == s[i]@,
    decreases s.len(),
{
    if s.len() > 0 {
        lemma_models_of(s.drop_last());
    }
}

/// The models of entries are the view of each key and the model of each value.
pub proof fn lemma_entry_models_of(s: Seq<(String, Value)>)
    ensures
        entry_models_of(s).len() == s.len(),
        forall|i: int|
            0 <= i < s.len() ==> #[trigger] entry_models_of(s)[i] == (s[i].0@, s[i].1@),
    decreases s.len(),
{
    if s.len() > 0 {
        lemma_entry_models_of(s.drop_last());
    }
}

/// The kind of a value.
pub open spec fn kind_of(m: Model) -> Type {
    match m {
        Model::String(_) => Type::String,
        Model::Buffer(_) => Type::Buffer,
        Model::Integer(_) => Type::Integer,
        Model::Double(_) => Type::Double,
        Model::Array(_) => Type::Array,
        Model::Object(_) => Type::Object,
        Model::Boolnull(_) => Type::Boolnull,
        Model::Reserved(_, _) => Type::Reserved,
    }
}

impl Typed for Value {
    open spec fn spec_type(&self) -> Type {
        kind_of(self@)
    }

    fn to_type(&self) -> (t: Type) {
        match self {
            Value::String(_) => Type::String,
            Value::Buffer(_) => Type::Buffer,
            Value::Integer(_) => Type::Integer,
            Value::Double(_) => Type::Double,
            Value::Array(_) => Type::Array,
            Value::Object(_) => Type::Object,
            Value::Boolnull(_) => Type::Boolnull,
            Value::Reserved(_, _) => Type::Reserved,
        }
    }
}

/// The four bytes of `x`, least significant first.
pub open spec fn le_u32(x: u32) -> Seq<u8> {
    seq![x as u8, (x >> 8u32) as u8, (x >> 16u32) as u8, (x >> 24u32) as u8]
}

/// The eight bytes of `x`, least significant first.
pub open spec fn le_u64(x: u64) -> Seq<u8> {
    seq![
        x as u8,
        (x >> 8u64) as u8,
        (x >> 16u64) as u8,
        (x >> 24u64) as u8,
        (x >> 32u64) as u8,
        (x >> 40u64) as u8,
        (x >> 48u64) as u8,
        (x >> 56u64) as u8,
    ]
}

/// The byte that a boolean is written as.
pub open spec fn bool_byte(b: bool) -> u8 {
    if b {
        1
    } else {
        0
    }
}

/// The payload of a value: what follows its header.
pub open spec fn payload(m: Model) -> Seq<u8>
    decreases m, 0nat,
{
    match m {
        Model::String(c) => encode_utf8(c),
        Model::Buffer(b) => b,
        Model::Integer(i) => le_u32(i as u32),
        Model::Double(d) => le_u64(d),
        Model::Array(items) => encode_list(items),
        Model::Object(entries) => encode_entries(entries),
        Model::Boolnull(None) => Seq::empty(),
        Model::Boolnull(Some(b)) => seq![bool_byte(b)],
        Model::Reserved(d, b) => varint(d as nat) + b,
    }
}

/// The header of a value whose payload is `len` bytes long.
pub open spec fn header_bytes(kind: Type, len: nat) -> Seq<u8> {
    varint(header_value(kind, len))
}

/// The encoding of a value: its header, then its payload.
pub open spec fn encoding(m: Model) -> Seq<u8>
    decreases m, 1nat,
{
    header_bytes(kind_of(m), payload(m).len()) + payload(m)
}

/// The encodings of `items`, one after the other.
pub open spec fn encode_list(items: Seq<Model>) -> Seq<u8>
    decreases items, 2nat,
{
    if items.len() == 0 {
        Seq::empty()
    } else {
        encode_list(items.drop_last()) + encoding(items.last())
    }
}

/// The encoding of an object key: a string.
pub open spec fn key_encoding(k: Seq<char>) -> Seq<u8> {
    header_bytes(Type::String, encode_utf8(k).len()) + encode_utf8(k)
}

/// A key is encoded as a string value is.
pub proof fn lemma_key_encoding(k: Seq<char>)
    ensures
        key_encoding(k) == encoding(Model::String(k)),
{
}

/// Each entry as its key encoded as a string, then its value.
pub open spec fn encode_entries(entries: Seq<(Seq<char>, Model)>) -> Seq<u8>
    decreases entries, 2nat,
{
    if entries.len() == 0 {
        Seq::empty()
    } else {
        encode_entries(entries.drop_last()) + key_encoding(entries.last().0) + encoding(
            entries.last().1,
        )
    }
}

/// Every payload in `m`, its own and those nested in it, fits in a header.
pub open spec fn representable(m: Model) -> bool
    decreases m,
{
    &&& payload(m).len() <= MAX_LEN
    &&& match m {
        Model::Array(items) => forall|i: int| 0 <= i < items.len() ==> representable(#[trigger] items[i]),
        Model::Object(entries) => forall|i: int|
            #![trigger entries[i]]
            0 <= i < entries.len() ==> encode_utf8(entries[i].0).len() <= MAX_LEN
                && representable(entries[i].1),
        _ => true,
    }
}

} // verus!

verus! {

/// `m` fits the format, and its encoding starts `s`.
pub open spec fn fits(m: Model, s: Seq<u8>) -> bool {
    representable(m) && is_prefix(encoding(m), s)
}

/// `items` fit the format, and their encodings make up `t` exactly.
pub open spec fn items_fit(items: Seq<Model>, t: Seq<u8>) -> bool {
    &&& forall|i: int| 0 <= i < items.len() ==> representable(#[trigger] items[i])
    &&& encode_list(items) == t
}

/// `entries` fit the format, and their encodings make up `t` exactly.
pub open spec fn entries_fit(entries: Seq<(Seq<char>, Model)>, t: Seq<u8>) -> bool {
    &&& forall|i: int|
        #![trigger entries[i]]
        0 <= i < entries.len() ==> encode_utf8(entries[i].0).len() <= MAX_LEN && representable(
            entries[i].1,
        )
    &&& encode_entries(entries) == t
}

/// Every encoding takes at least one byte.
pub proof fn lemma_encoding_nonempty(m: Model)
    ensures
        encoding(m).len() >= 1,
{
    lemma_varint_shape(header_value(kind_of(m), payload(m).len()));
}

/// The encodings of the first `j` items start those of the first `n`.
pub proof fn lemma_list_prefix(items: Seq<Model>, j: int, n: int)
    requires
        0 <= j <= n <= items.len(),
    ensures
        is_prefix(encode_list(items.take(j)), encode_list(items.take(n))),
        j < n ==> encode_list(items.take(j)).len() < encode_list(items.take(n)).len(),
    decreases n - j,
{
    if j < n {
        lemma_list_prefix(items, j, n - 1);
        assert(items.take(n).drop_last() =~= items.take(n - 1));
        lemma_encoding_nonempty(items[n - 1]);
        let a = encode_list(items.take(j));
        let b = encode_list(items.take(n - 1));
        let c = encode_list(items.take(n));
        assert(c == b + encoding(items[n - 1]));
        assert(c.subrange(0, a.len() as int) =~= b.subrange(0, a.len() as int));
    } else {
        assert(encode_list(items.take(j)).subrange(0, encode_list(items.take(j)).len() as int)
            =~= encode_list(items.take(j)));
    }
}

/// The encodings of the first `j` entries start those of the first `n`.
pub proof fn lemma_entries_prefix(entries: Seq<(Seq<char>, Model)>, j: int, n: int)
    requires
        0 <= j <= n <= entries.len(),
    ensures
        is_prefix(encode_entries(entries.take(j)), encode_entries(entries.take(n))),
        j < n ==> encode_entries(entries.take(j)).len() < encode_entries(entries.take(n)).len(),
    decreases n - j,
{
    if j < n {
        lemma_entries_prefix(entries, j, n - 1);
        assert(entries.take(n).drop_last() =~= entries.take(n - 1));
        lemma_encoding_nonempty(entries[n - 1].1);
        let a = encode_entries(entries.take(j));
        let b = encode_entries(entries.take(n - 1));
        let c = encode_entries(entries.take(n));
        assert(c == b + key_encoding(entries[n - 1].0) + encoding(entries[n - 1].1));
        assert(c.subrange(0, a.len() as int) =~= b.subrange(0, a.len() as int));
    } else {
        assert(encode_entries(entries.take(j)).subrange(
            0,
            encode_entries(entries.take(j)).len() as int,
        ) =~= encode_entries(entries.take(j)));
    }
}

/// The header that starts a value's encoding is the one its kind and payload
/// give, and the payload follows it.
pub proof fn lemma_fit_header(m: Model, s: Seq<u8>, raw: u64, h: int)
    requires
        fits(m, s),
        spells(s, h),
        spelled(s, h) == raw,
    ensures
        raw as nat == header_value(kind_of(m), payload(m).len()),
        type_of_tag(raw as nat) == kind_of(m),
        raw as nat / 8 == payload(m).len(),
        h == varint(raw as nat).len(),
        h + payload(m).len() <= s.len(),
        s.subrange(h, h + payload(m).len()) == payload(m),
{
    let hv = header_value(kind_of(m), payload(m).len());
    let e = encoding(m);
    let hb = varint(hv);
    lemma_fit_has_header(m, s);
    lemma_varint_spells(hv as u64, s);
    lemma_spells_unique(s, h, hb.len() as int);
    lemma_header_round_trip(kind_of(m), payload(m).len());
    assert(s.subrange(hb.len() as int, (hb.len() + payload(m).len()) as int) =~= e.subrange(
        hb.len() as int,
        e.len() as int,
    ));
}

} // verus!

verus! {

/// A value that fits starts with its own header.
pub proof fn lemma_fit_has_header(m: Model, s: Seq<u8>)
    requires
        fits(m, s),
    ensures
        header_value(kind_of(m), payload(m).len()) <= u64::MAX,
        is_prefix(varint(header_value(kind_of(m), payload(m).len())), s),
{
    let hv = header_value(kind_of(m), payload(m).len());
    let e = encoding(m);
    let hb = varint(hv);
    assert(s.subrange(0, hb.len() as int) =~= e.subrange(0, hb.len() as int));
    assert(e.subrange(0, hb.len() as int) =~= hb);
    lemma_header_round_trip(kind_of(m), payload(m).len());
}

/// `m` fits the format, is of kind `kind`, and has the payload `t`.
pub open spec fn payload_fits(m: Model, kind: Type, t: Seq<u8>) -> bool {
    representable(m) && kind_of(m) == kind && payload(m) == t
}

} // verus!
