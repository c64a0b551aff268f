use vstd::prelude::*;
use vstd::slice::slice_to_vec;
use vstd::utf8::encode_utf8;

use crate::error::Error;
use crate::header::{header_value, pack_header, MAX_LEN};
use crate::kind::Type;
use crate::value::{
    encode_entries, encode_list, encoding, entry_models_of, header_bytes, key_encoding, le_u32, le_u64,
    Model, lemma_entry_models_of, lemma_models_of, models_of, payload, representable, Value,
};
use crate::varint::push_varint;

verus! {

/// Writes the header of a payload of kind `kind`, then the payload itself.
fn push_framed(kind: Type, p: &mut Vec<u8>, out: &mut Vec<u8>) -> (r: Result<(), Error>)
    ensures
        r is Ok <==> old(p)@.len() <= MAX_LEN,
        r is Ok ==> final(out)@ == old(out)@ + header_bytes(kind, old(p)@.len()) + old(p)@,
        r is Err ==> r == Err::<(), Error>(Error::LengthOverflow) && final(out)@ == old(out)@,
{
    let raw = match pack_header(kind, p.len() as u64) {
        Ok(raw) => raw,
        Err(e) => return Err(e),
    };
    push_varint(raw, out);
    out.append(p);
    Ok(())
}

/// Writes `k` as an object key: the encoding of a string.
fn push_key(k: &String, out: &mut Vec<u8>) -> (r: Result<(), Error>)
    ensures
        r is Ok <==> encode_utf8(k@).len() <= MAX_LEN,
        r is Ok ==> final(out)@ == old(out)@ + key_encoding(k@),
        r is Err ==> r == Err::<(), Error>(Error::LengthOverflow) && final(out)@ == old(out)@,
{
    let mut p = slice_to_vec(k.as_str().as_bytes());
    push_framed(Type::String, &mut p, out)
}

/// Writes the encoding of `v` after what `out` holds. Fails, and writes nothing,
/// when a payload in `v` is too long for its header.
pub fn encode(v: &Value, out: &mut Vec<u8>) -> (r: Result<(), Error>)
    ensures
        r is Ok <==> representable(v@),
        r is Ok ==> final(out)@ == old(out)@ + encoding(v@),
        r is Err ==> r == Err::<(), Error>(Error::LengthOverflow) && final(out)@ == old(out)@,
    decreases v,
{
    let mut p: Vec<u8> = Vec::new();
    let kind = match v {
        Value::String(s) => {
            p = slice_to_vec(s.as_str().as_bytes());
            Type::String
        },
        Value::Buffer(b) => {
            p = slice_to_vec(b.as_slice());
            Type::Buffer
        },
        Value::Integer(i) => {
            let x = #[verifier::truncate] (*i as u32);
            p.push(#[verifier::truncate] (x as u8));
            p.push(#[verifier::truncate] ((x >> 8u32) as u8));
            p.push(#[verifier::truncate] ((x >> 16u32) as u8));
            p.push(#[verifier::truncate] ((x >> 24u32) as u8));
            assert(p@ =~= le_u32(x));
            Type::Integer
        },
        Value::Double(d) => {
            let x = *d;
            p.push(#[verifier::truncate] (x as u8));
            p.push(#[verifier::truncate] ((x >> 8u64) as u8));
            p.push(#[verifier::truncate] ((x >> 16u64) as u8));
            p.push(#[verifier::truncate] ((x >> 24u64) as u8));
            p.push(#[verifier::truncate] ((x >> 32u64) as u8));
            p.push(#[verifier::truncate] ((x >> 40u64) as u8));
            p.push(#[verifier::truncate] ((x >> 48u64) as u8));
            p.push(#[verifier::truncate] ((x >> 56u64) as u8));
            assert(p@ =~= le_u64(x));
            Type::Double
        },
        Value::Array(items) => {
            let ghost ms = models_of(items@);
            proof {
                lemma_models_of(items@);
            }
            assert(v@ == Model::Array(ms));
            let mut i: usize = 0;
            while i < items.len()
                invariant
                    i <= items@.len(),
                    ms == models_of(items@),
                    *v == Value::Array(*items),
                    v@ == Model::Array(ms),
                    ms.len() == items@.len(),
                    forall|j: int| 0 <= j < items@.len() ==> #[trigger] ms[j] == items@[j]@,
                    p@ == encode_list(ms.take(i as int)),
                    forall|j: int| 0 <= j < i ==> representable(#[trigger] ms[j]),
                    old(out)@ == out@,
                decreases items@.len() - i,
            {
                proof {
                    assert(decreases_to!(*v => *items));
                    assert(decreases_to!(items => items@));
                    assert(decreases_to!(items@ => items@[i as int]));
                }
                match encode(&items[i], &mut p) {
                    Ok(()) => {},
                    Err(e) => {
                        assert(ms[i as int] == items@[i as int]@);
                        assert(v@ == Model::Array(ms));
                        assert(!representable(v@));
                        return Err(e);
                    },
                }
                assert(ms.take(i + 1).drop_last() =~= ms.take(i as int));
                i = i + 1;
            }
            assert(ms.take(i as int) =~= ms);
            assert(v@ == Model::Array(ms));
            Type::Array
        },
        Value::Object(entries) => {
            let ghost es = entry_models_of(entries@);
            proof {
                lemma_entry_models_of(entries@);
            }
            assert(v@ == Model::Object(es));
            let mut i: usize = 0;
            while i < entries.len()
                invariant
                    i <= entries@.len(),
                    es == entry_models_of(entries@),
                    *v == Value::Object(*entries),
                    v@ == Model::Object(es),
                    es.len() == entries@.len(),
                    forall|j: int|
                        0 <= j < entries@.len() ==> #[trigger] es[j] == (
                        entries@[j].0@,
                        entries@[j].1@,
                    ),
                    p@ == encode_entries(es.take(i as int)),
                    forall|j: int|
                        #![trigger es[j]]
                        0 <= j < i ==> encode_utf8(es[j].0).len() <= MAX_LEN && representable(
                            es[j].1,
                        ),
                    old(out)@ == out@,
                decreases entries@.len() - i,
            {
                let entry = &entries[i];
                assert(es[i as int] == (entry.0@, entry.1@));
                proof {
                    assert(decreases_to!(*v => *entries));
                    assert(decreases_to!(entries => entries@));
                    assert(decreases_to!(entries@ => entries@[i as int]));
                    assert(decreases_to!(entries@[i as int] => entries@[i as int].1));
                }
                match push_key(&entry.0, &mut p) {
                    Ok(()) => {},
                    Err(e) => {
                        assert(v@ == Model::Object(es));
                        assert(!representable(v@));
                        return Err(e);
                    },
                }
                match encode(&entry.1, &mut p) {
                    Ok(()) => {},
                    Err(e) => {
                        assert(v@ == Model::Object(es));
                        assert(!representable(v@));
                        return Err(e);
                    },
                }
                assert(es.take(i + 1).drop_last() =~= es.take(i as int));
                i = i + 1;
            }
            assert(es.take(i as int) =~= es);
            assert(v@ == Model::Object(es));
            Type::Object
        },
        Value::Boolnull(b) => {
            match b {
                Some(x) => p.push(if *x {
                    1u8
                } else {
                    0u8
                }),
                None => {},
            }
            assert(p@ =~= payload(v@));
            Type::Boolnull
        },
        Value::Reserved(d, b) => {
            push_varint(*d, &mut p);
            let mut rest = slice_to_vec(b.as_slice());
            p.append(&mut rest);
            Type::Reserved
        },
    };
    assert(p@ =~= payload(v@));
    push_framed(kind, &mut p, out)
}

} // verus!
