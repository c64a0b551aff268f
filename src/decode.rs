use vstd::prelude::*;
use vstd::slice::{slice_subrange, slice_to_vec};
use vstd::utf8::{
    decode_utf8, encode_utf8, encode_utf8_decode_utf8, encode_utf8_valid_utf8, valid_utf8,
};

use crate::error::Error;
use crate::header::{header_value, unpack_header, MAX_LEN};
use crate::kind::{type_of_tag, Type};
use crate::value::{
    bool_byte, encode_entries, encode_list, encoding, entries_fit, entry_models_of, fits, items_fit,
    key_encoding, kind_of, le_u32, le_u64, lemma_entries_prefix, lemma_entry_models_of,
    lemma_fit_has_header, lemma_fit_header, lemma_key_encoding, lemma_list_prefix, lemma_models_of,
    models_of, payload, payload_fits, representable, Model, Value,
};
use crate::varint::{
    is_prefix, lemma_shortest, lemma_spells_unique, lemma_varint_len_mono, lemma_varint_spells,
    read_varint, spelled, spells, varint, varint_overflows, varint_truncated,
};

verus! {

/// Relies on std::str::from_utf8: it accepts exactly the byte sequences that are
/// valid UTF-8, and the `str` it hands back holds those same bytes.
#[verifier::external_body]
fn utf8_str(b: &[u8]) -> (r: Option<&str>)
    ensures
        r is Some <==> valid_utf8(b@),
        r is Some ==> encode_utf8(r->0@) == b@,
{
    std::str::from_utf8(b).ok()
}

/// Four bytes put together little-endian are the bytes of that number, and of no other.
proof fn lemma_le_u32(x: u32, b0: u8, b1: u8, b2: u8, b3: u8)
    requires
        x == (b0 as u32) | ((b1 as u32) << 8u32) | ((b2 as u32) << 16u32) | ((b3 as u32) << 24u32),
    ensures
        le_u32(x) == seq![b0, b1, b2, b3],
        forall|y: u32| le_u32(y) == seq![b0, b1, b2, b3] ==> y == x,
{
    assert(x as u8 == b0 && (x >> 8u32) as u8 == b1 && (x >> 16u32) as u8 == b2 && (x >> 24u32) as u8
        == b3) by (bit_vector)
        requires
            x == (b0 as u32) | ((b1 as u32) << 8u32) | ((b2 as u32) << 16u32) | ((b3 as u32) << 24u32),
    ;
    assert(le_u32(x) =~= seq![b0, b1, b2, b3]);
    assert forall|y: u32| le_u32(y) == seq![b0, b1, b2, b3] implies y == x by {
        assert(le_u32(y)[0] == b0 && le_u32(y)[1] == b1 && le_u32(y)[2] == b2 && le_u32(y)[3] == b3);
        assert(y == (b0 as u32) | ((b1 as u32) << 8u32) | ((b2 as u32) << 16u32) | ((b3 as u32) << 24u32))
            by (bit_vector)
            requires
                y as u8 == b0,
                (y >> 8u32) as u8 == b1,
                (y >> 16u32) as u8 == b2,
                (y >> 24u32) as u8 == b3,
        ;
    }
}

/// The number whose eight little-endian bytes are `b[0]` to `b[7]`.
pub open spec fn le_u64_value(b: Seq<u8>) -> u64 {
    (b[0] as u64) | ((b[1] as u64) << 8u64) | ((b[2] as u64) << 16u64) | ((b[3] as u64) << 24u64)
        | ((b[4] as u64) << 32u64) | ((b[5] as u64) << 40u64) | ((b[6] as u64) << 48u64) | ((
    b[7] as u64) << 56u64)
}

/// Eight bytes put together little-endian are the bytes of that number, and of no other.
proof fn lemma_le_u64(b: Seq<u8>)
    requires
        b.len() == 8,
    ensures
        le_u64(le_u64_value(b)) == b,
        forall|y: u64| le_u64(y) == b ==> y == le_u64_value(b),
{
    let (b0, b1, b2, b3, b4, b5, b6, b7) = (b[0], b[1], b[2], b[3], b[4], b[5], b[6], b[7]);
    let x = le_u64_value(b);
    assert(x as u8 == b0 && (x >> 8u64) as u8 == b1 && (x >> 16u64) as u8 == b2 && (x >> 24u64) as u8
        == b3 && (x >> 32u64) as u8 == b4 && (x >> 40u64) as u8 == b5 && (x >> 48u64) as u8 == b6 && (x
        >> 56u64) as u8 == b7) by (bit_vector)
        requires
            x == (b0 as u64) | ((b1 as u64) << 8u64) | ((b2 as u64) << 16u64) | ((b3 as u64) << 24u64)
                | ((b4 as u64) << 32u64) | ((b5 as u64) << 40u64) | ((b6 as u64) << 48u64) | ((
            b7 as u64) << 56u64),
    ;
    assert(le_u64(x) =~= b);
    assert forall|y: u64| le_u64(y) == b implies y == x by {
        assert(le_u64(y)[0] == b0 && le_u64(y)[1] == b1 && le_u64(y)[2] == b2 && le_u64(y)[3] == b3);
        assert(le_u64(y)[4] == b4 && le_u64(y)[5] == b5 && le_u64(y)[6] == b6 && le_u64(y)[7] == b7);
        assert(y == (b0 as u64) | ((b1 as u64) << 8u64) | ((b2 as u64) << 16u64) | ((b3 as u64) << 24u64)
            | ((b4 as u64) << 32u64) | ((b5 as u64) << 40u64) | ((b6 as u64) << 48u64) | ((b7 as u64)
            << 56u64)) by (bit_vector)
            requires
                y as u8 == b0,
                (y >> 8u64) as u8 == b1,
                (y >> 16u64) as u8 == b2,
                (y >> 24u64) as u8 == b3,
                (y >> 32u64) as u8 == b4,
                (y >> 40u64) as u8 == b5,
                (y >> 48u64) as u8 == b6,
                (y >> 56u64) as u8 == b7,
        ;
    }
}

/// `m` is what the payload `t` holds: exactly its payload, but that the
/// discriminator of a reserved value may be written in a longer form.
pub open spec fn payload_reads(m: Model, t: Seq<u8>) -> bool {
    match m {
        Model::Reserved(d, b) => exists|k: int|
            spells(t, k) && spelled(t, k) == d && b == t.subrange(k, t.len() as int),
        _ => payload(m) == t,
    }
}

/// Decodes the payload `buf[start..stop]` of a value of kind `kind`, a kind that
/// holds no other values.
fn decode_scalar(buf: &[u8], kind: Type, start: usize, stop: usize) -> (r: Result<Value, Error>)
    requires
        start <= stop <= buf@.len(),
        stop - start <= MAX_LEN,
        kind != Type::Array,
        kind != Type::Object,
    ensures
        ({
            let t = buf@.subrange(start as int, stop as int);
            &&& r is Ok ==> kind_of(r->Ok_0@) == kind && representable(r->Ok_0@) && payload(
                r->Ok_0@,
            ).len() <= t.len() && payload_reads(r->Ok_0@, t)
            &&& forall|m: Model| #[trigger] payload_fits(m, kind, t) ==> r is Ok && r->Ok_0@ == m
            &&& (kind == Type::Integer && t.len() != 4) ==> r == Err::<Value, Error>(Error::MalformedLength)
            &&& (kind == Type::Double && t.len() != 8) ==> r == Err::<Value, Error>(Error::MalformedLength)
            &&& (kind == Type::String && !valid_utf8(t)) ==> r == Err::<Value, Error>(Error::InvalidEncoding)
            &&& (kind == Type::Boolnull && (t.len() > 1 || (t.len() == 1 && t[0] > 1))) ==> r == Err::<
                Value,
                Error,
            >(Error::MalformedLength)
        }),
{
    let ghost t = buf@.subrange(start as int, stop as int);
    let bytes = slice_subrange(buf, start, stop);
    match kind {
        Type::String => {
            match utf8_str(bytes) {
                Some(st) => {
                    let v = Value::String(st.to_owned());
                    proof {
                        assert forall|m: Model| #[trigger] payload_fits(m, kind, t) implies m == v@ by {
                            if let Model::String(c) = m {
                                encode_utf8_decode_utf8(c);
                                encode_utf8_decode_utf8(st@);
                            }
                        }
                    }
                    Ok(v)
                },
                None => {
                    proof {
                        assert forall|m: Model| #[trigger] payload_fits(m, kind, t) implies false by {
                            if let Model::String(c) = m {
                                encode_utf8_valid_utf8(c);
                            }
                        }
                    }
                    Err(Error::InvalidEncoding)
                },
            }
        },
        Type::Buffer => Ok(Value::Buffer(slice_to_vec(bytes))),
        Type::Integer => {
            if stop - start != 4 {
                return Err(Error::MalformedLength);
            }
            let b0 = bytes[0];
            let b1 = bytes[1];
            let b2 = bytes[2];
            let b3 = bytes[3];
            let x: u32 = (b0 as u32) | ((b1 as u32) << 8u32) | ((b2 as u32) << 16u32) | ((b3 as u32)
                << 24u32);
            let i: i32 = #[verifier::truncate] (x as i32);
            proof {
                lemma_le_u32(x, b0, b1, b2, b3);
                assert(t =~= seq![b0, b1, b2, b3]);
                assert((#[verifier::truncate] (x as i32)) as u32 == x) by (bit_vector);
                assert forall|m: Model| #[trigger] payload_fits(m, kind, t) implies m == Model::Integer(i) by {
                    if let Model::Integer(j) = m {
                        assert((#[verifier::truncate] ((j as u32) as i32)) == j) by (bit_vector);
                    }
                }
            }
            Ok(Value::Integer(i))
        },
        Type::Double => {
            if stop - start != 8 {
                return Err(Error::MalformedLength);
            }
            let x: u64 = (bytes[0] as u64) | ((bytes[1] as u64) << 8u64) | ((bytes[2] as u64) << 16u64)
                | ((bytes[3] as u64) << 24u64) | ((bytes[4] as u64) << 32u64) | ((bytes[5] as u64)
                << 40u64) | ((bytes[6] as u64) << 48u64) | ((bytes[7] as u64) << 56u64);
            proof {
                assert(x == le_u64_value(t));
                lemma_le_u64(t);
            }
            Ok(Value::Double(x))
        },
        Type::Boolnull => {
            if stop == start {
                proof {
                    assert(t =~= Seq::<u8>::empty());
                }
                Ok(Value::Boolnull(None))
            } else if stop - start == 1 && bytes[0] <= 1 {
                let b = bytes[0] == 1;
                assert(t =~= seq![bool_byte(b)]);
                Ok(Value::Boolnull(Some(b)))
            } else {
                Err(Error::MalformedLength)
            }
        },
        _ => {
            let (d, n) = match read_varint(buf, start, stop) {
                Ok(x) => x,
                Err(e) => {
                    proof {
                        assert forall|m: Model| #[trigger] payload_fits(m, kind, t) implies false by {
                            if let Model::Reserved(d, b) = m {
                                assert(is_prefix(varint(d as nat), t)) by {
                                    assert(t.subrange(0, varint(d as nat).len() as int) =~= varint(d as nat));
                                }
                                lemma_varint_spells(d, t);
                            }
                        }
                    }
                    return Err(e);
                },
            };
            let rest = slice_to_vec(slice_subrange(buf, start + n, stop));
            proof {
                lemma_shortest(t, n as int);
                assert(rest@ =~= t.subrange(n as int, t.len() as int));
                assert(payload_reads(Model::Reserved(d, rest@), t));
                assert forall|m: Model| #[trigger] payload_fits(m, kind, t) implies m == Model::Reserved(d, rest@) by {
                    if let Model::Reserved(d2, b2) = m {
                        let v2 = varint(d2 as nat);
                        assert(is_prefix(v2, t)) by {
                            assert(t.subrange(0, v2.len() as int) =~= v2);
                        }
                        lemma_varint_spells(d2, t);
                        lemma_spells_unique(t, n as int, v2.len() as int);
                        assert(t == v2 + b2);
                        assert(b2 =~= t.subrange(v2.len() as int, t.len() as int));
                    }
                }
            }
            Ok(Value::Reserved(d, rest))
        },
    }
}

} // verus!

verus! {

/// Past the encodings of the first `k` items comes the encoding of item `k`.
pub proof fn lemma_item_at(ms: Seq<Model>, k: int, t: Seq<u8>, off: int)
    requires
        items_fit(ms, t),
        0 <= k <= ms.len(),
        0 <= off < t.len(),
        encode_list(ms.take(k)) == t.subrange(0, off),
    ensures
        k < ms.len(),
        fits(ms[k], t.subrange(off, t.len() as int)),
        encode_list(ms.take(k + 1)) == t.subrange(0, off) + encoding(ms[k]),
{
    lemma_list_prefix(ms, k, ms.len() as int);
    assert(ms.take(ms.len() as int) =~= ms);
    if k == ms.len() {
        assert(t.subrange(0, off).len() == t.len());
    }
    lemma_list_prefix(ms, k + 1, ms.len() as int);
    assert(ms.take(k + 1).drop_last() =~= ms.take(k));
    let e = encoding(ms[k]);
    let whole = encode_list(ms.take(k + 1));
    assert(whole == t.subrange(0, off) + e);
    assert(t.subrange(off, t.len() as int).subrange(0, e.len() as int) =~= whole.subrange(
        off,
        off + e.len(),
    ));
    assert(whole.subrange(off, off + e.len()) =~= e);
}

/// Once the encodings of the first `k` items fill the payload, they are all of them.
proof fn lemma_items_done(ms: Seq<Model>, k: int, t: Seq<u8>)
    requires
        items_fit(ms, t),
        0 <= k <= ms.len(),
        encode_list(ms.take(k)) == t,
    ensures
        ms.take(k) == ms,
{
    lemma_list_prefix(ms, k, ms.len() as int);
    assert(ms.take(ms.len() as int) =~= ms);
    assert(ms.take(k) =~= ms);
}

/// Past the encodings of the first `k` entries come the key and the value of entry `k`.
pub proof fn lemma_entry_at(es: Seq<(Seq<char>, Model)>, k: int, t: Seq<u8>, off: int)
    requires
        entries_fit(es, t),
        0 <= k <= es.len(),
        0 <= off < t.len(),
        encode_entries(es.take(k)) == t.subrange(0, off),
    ensures
        k < es.len(),
        fits(Model::String(es[k].0), t.subrange(off, t.len() as int)),
        fits(
            es[k].1,
            t.subrange(off + key_encoding(es[k].0).len(), t.len() as int),
        ),
        encode_entries(es.take(k + 1)) == t.subrange(0, off) + key_encoding(es[k].0) + encoding(
            es[k].1,
        ),
{
    lemma_entries_prefix(es, k, es.len() as int);
    assert(es.take(es.len() as int) =~= es);
    if k == es.len() {
        assert(t.subrange(0, off).len() == t.len());
    }
    lemma_entries_prefix(es, k + 1, es.len() as int);
    assert(es.take(k + 1).drop_last() =~= es.take(k));
    lemma_key_encoding(es[k].0);
    let a = key_encoding(es[k].0);
    let e = encoding(es[k].1);
    let whole = encode_entries(es.take(k + 1));
    assert(whole == t.subrange(0, off) + a + e);
    assert(t.subrange(off, t.len() as int).subrange(0, a.len() as int) =~= whole.subrange(
        off,
        off + a.len(),
    ));
    assert(whole.subrange(off, off + a.len()) =~= a);
    assert(t.subrange(off + a.len(), t.len() as int).subrange(0, e.len() as int) =~= whole.subrange(
        off + a.len(),
        off + a.len() + e.len(),
    ));
    assert(whole.subrange(off + a.len(), off + a.len() + e.len()) =~= e);
}

/// Once the encodings of the first `k` entries fill the payload, they are all of them.
proof fn lemma_entries_done(es: Seq<(Seq<char>, Model)>, k: int, t: Seq<u8>)
    requires
        entries_fit(es, t),
        0 <= k <= es.len(),
        encode_entries(es.take(k)) == t,
    ensures
        es.take(k) == es,
{
    lemma_entries_prefix(es, k, es.len() as int);
    assert(es.take(es.len() as int) =~= es);
    assert(es.take(k) =~= es);
}

/// The error that the header of `h` bytes at the start of `s` predicts, if any:
/// the payload runs past `s`, a fixed-size kind has another length, a string is
/// not UTF-8, or a boolnull is not one of its three forms.
pub open spec fn header_error(s: Seq<u8>, h: int) -> Option<Error> {
    let u = spelled(s, h);
    let len = u / 8;
    let k = type_of_tag(u);
    if h + len > s.len() {
        Some(Error::Truncated)
    } else if (k == Type::Integer && len != 4) || (k == Type::Double && len != 8) {
        Some(Error::MalformedLength)
    } else if k == Type::String && !valid_utf8(s.subrange(h, h + len)) {
        Some(Error::InvalidEncoding)
    } else if k == Type::Boolnull && (len > 1 || (len == 1 && s[h] > 1)) {
        Some(Error::MalformedLength)
    } else {
        None
    }
}

/// The header at the start of `s` takes `h` bytes, is of kind `kind`, and the
/// value it heads takes `n` bytes in all.
pub open spec fn header_spans(s: Seq<u8>, h: int, kind: Type, n: int) -> bool {
    spells(s, h) && type_of_tag(spelled(s, h)) == kind && h + spelled(s, h) / 8 == n
}

/// What decoding the bytes `s` gives. On success: a value that fits the format,
/// of the kind its header says, taking exactly the bytes its header declares, and
/// no shorter to write again; a payload of a kind that holds no other values is
/// the value's own. Every value whose encoding starts `s` is decoded, with the
/// length of that encoding. And the errors that a malformed header or payload
/// calls for.
pub open spec fn decode_outcome(s: Seq<u8>, r: Result<(Value, usize), Error>) -> bool {
    &&& r is Ok ==> representable(r->Ok_0.0@) && r->Ok_0.1 <= s.len() && encoding(r->Ok_0.0@).len()
        <= r->Ok_0.1 && (exists|h: int|
        header_spans(s, h, kind_of(r->Ok_0.0@), r->Ok_0.1 as int) && payload_reads_plain(
            r->Ok_0.0@,
            s.subrange(h, r->Ok_0.1 as int),
        ))
    &&& forall|m: Model| #[trigger]
        fits(m, s) ==> r is Ok && r->Ok_0.0@ == m && r->Ok_0.1 == encoding(m).len()
    &&& varint_truncated(s) ==> r == Err::<(Value, usize), Error>(Error::Truncated)
    &&& varint_overflows(s) ==> r == Err::<(Value, usize), Error>(Error::Overflow)
    &&& forall|h: int|
        spells(s, h) && (#[trigger] header_error(s, h)) is Some ==> r == Err::<(Value, usize), Error>(
            header_error(s, h)->0,
        )
}

/// Where `m` is of a kind that holds no other values, `t` reads as its payload.
pub open spec fn payload_reads_plain(m: Model, t: Seq<u8>) -> bool {
    match m {
        Model::Array(_) => true,
        Model::Object(_) => true,
        _ => payload_reads(m, t),
    }
}

/// The values fit the format, and take no more than `len` bytes to write.
pub open spec fn items_within(ms: Seq<Model>, len: int) -> bool {
    &&& forall|i: int| 0 <= i < ms.len() ==> representable(#[trigger] ms[i])
    &&& encode_list(ms).len() <= len
}

/// The entries fit the format, and take no more than `len` bytes to write.
pub open spec fn entries_within(es: Seq<(Seq<char>, Model)>, len: int) -> bool {
    &&& forall|i: int|
        #![trigger es[i]]
        0 <= i < es.len() ==> encode_utf8(es[i].0).len() <= MAX_LEN && representable(es[i].1)
    &&& encode_entries(es).len() <= len
}

/// A value read under a header of `h` bytes, whose payload is no longer than the
/// length that header declares, takes no more than `h` plus that length to write.
proof fn lemma_no_longer(s: Seq<u8>, h: int, m: Model, len: nat)
    requires
        spells(s, h),
        spelled(s, h) == header_value(kind_of(m), len),
        payload(m).len() <= len,
    ensures
        encoding(m).len() <= h + len,
{
    lemma_varint_len_mono(header_value(kind_of(m), payload(m).len()), spelled(s, h));
    lemma_shortest(s, h);
}

#[verifier::rlimit(100)]
#[verifier::spinoff_prover]
/// Decodes the value that starts at `pos`, reading nothing at or after `end`.
fn decode_in(buf: &[u8], pos: usize, end: usize) -> (r: Result<(Value, usize), Error>)
    requires
        pos <= end <= buf@.len(),
    ensures
        decode_outcome(buf@.subrange(pos as int, end as int), r),
    decreases end - pos, 0nat,
{
    let ghost s = buf@.subrange(pos as int, end as int);
    let (raw, h) = match read_varint(buf, pos, end) {
        Ok(x) => x,
        Err(e) => {
            proof {
                assert forall|m: Model| #[trigger] fits(m, s) implies false by {
                    lemma_fit_has_header(m, s);
                    let hv = header_value(kind_of(m), payload(m).len()) as u64;
                    lemma_varint_spells(hv, s);
                }
            }
            return Err(e);
        },
    };
    let hdr = unpack_header(raw);
    proof {
        assert forall|n: int| #[trigger] spells(s, n) implies n == h by {
            lemma_spells_unique(s, n, h as int);
        }
    }
    let start = pos + h;
    if hdr.len > (end - start) as u64 {
        proof {
            assert forall|m: Model| #[trigger] fits(m, s) implies false by {
                lemma_fit_header(m, s, raw, h as int);
            }
        }
        return Err(Error::Truncated);
    }
    let stop = start + hdr.len as usize;
    let ghost t = buf@.subrange(start as int, stop as int);
    proof {
        assert(t =~= s.subrange(h as int, h + hdr.len));
        assert forall|m: Model| #[trigger] fits(m, s) implies payload_fits(m, hdr.kind, t) && h
            + hdr.len == encoding(m).len() by {
            lemma_fit_header(m, s, raw, h as int);
        }
    }
    let v = match hdr.kind {
        Type::Array => match decode_items(buf, start, stop) {
            Ok(items) => {
                proof {
                    lemma_models_of(items@);
                    assert forall|m: Model| #[trigger] payload_fits(m, Type::Array, t) implies m
                        == Model::Array(models_of(items@)) by {
                        if let Model::Array(ms) = m {
                            assert(items_fit(ms, t));
                        }
                    }
                }
                Value::Array(items)
            },
            Err(e) => {
                proof {
                    assert forall|m: Model| #[trigger] fits(m, s) implies false by {
                        if let Model::Array(ms) = m {
                            assert(payload_fits(m, hdr.kind, t));
                            assert(items_fit(ms, t));
                        }
                    }
                }
                return Err(e);
            },
        },
        Type::Object => match decode_entries(buf, start, stop) {
            Ok(entries) => {
                proof {
                    lemma_entry_models_of(entries@);
                    assert forall|m: Model| #[trigger] payload_fits(m, Type::Object, t) implies m
                        == Model::Object(entry_models_of(entries@)) by {
                        if let Model::Object(es) = m {
                            assert(entries_fit(es, t));
                        }
                    }
                }
                Value::Object(entries)
            },
            Err(e) => {
                proof {
                    assert forall|m: Model| #[trigger] fits(m, s) implies false by {
                        if let Model::Object(es) = m {
                            assert(payload_fits(m, hdr.kind, t));
                            assert(entries_fit(es, t));
                        }
                    }
                }
                return Err(e);
            },
        },
        _ => match decode_scalar(buf, hdr.kind, start, stop) {
            Ok(v) => v,
            Err(e) => {
                proof {
                    assert forall|m: Model| #[trigger] fits(m, s) implies false by {
                        assert(payload_fits(m, hdr.kind, t));
                    }
                    if hdr.len > 0 {
                        assert(s[h as int] == t[0]);
                    }
                }
                return Err(e);
            },
        },
    };
    proof {
        assert(raw as nat == header_value(hdr.kind, hdr.len as nat));
        assert(kind_of(v@) == hdr.kind);
        assert(payload(v@).len() <= hdr.len);
        lemma_no_longer(s, h as int, v@, hdr.len as nat);
        assert(encoding(v@).len() <= h + hdr.len);
        assert(representable(v@));
        assert(header_spans(s, h as int, kind_of(v@), h + hdr.len));
        assert(payload_reads_plain(v@, s.subrange(h as int, h + hdr.len)));
        assert forall|m: Model| #[trigger] fits(m, s) implies m == v@ by {
            assert(payload_fits(m, hdr.kind, t));
        }
        if hdr.len > 0 {
            assert(s[h as int] == t[0]);
        }
        assert(header_error(s, h as int) is None);
        assert forall|hh: int| spells(s, hh) && (#[trigger] header_error(s, hh)) is Some implies false by {
            lemma_spells_unique(s, hh, h as int);
        }
        let n = h + hdr.len;
        assert(exists|hh: int|
            header_spans(s, hh, kind_of(v@), n) && payload_reads_plain(v@, s.subrange(hh, n)));
        assert(!varint_truncated(s) && !varint_overflows(s));
    }
    let res: Result<(Value, usize), Error> = Ok((v, h + hdr.len as usize));
    proof {
        let w = res->Ok_0;
        assert(header_spans(s, h as int, kind_of(w.0@), w.1 as int) && payload_reads_plain(
            w.0@,
            s.subrange(h as int, w.1 as int),
        ));
        assert(forall|m: Model| #[trigger] fits(m, s) ==> w.0@ == m && w.1 == encoding(m).len());
        assert(forall|hh: int| spells(s, hh) ==> (#[trigger] header_error(s, hh)) is None);
    }
    res
}

/// A value inside a composite that runs past the composite's end is a length
/// that disagrees with its contents.
fn within_span(e: Error) -> (r: Error)
    ensures
        r == (if e == Error::Truncated {
            Error::MalformedLength
        } else {
            e
        }),
{
    match e {
        Error::Truncated => Error::MalformedLength,
        _ => e,
    }
}

/// Decodes the values that make up `buf[start..stop]` exactly, one after another.
fn decode_items(buf: &[u8], start: usize, stop: usize) -> (r: Result<Vec<Value>, Error>)
    requires
        start <= stop <= buf@.len(),
    ensures
        ({
            let t = buf@.subrange(start as int, stop as int);
            &&& r is Ok ==> items_within(models_of(r->Ok_0@), t.len() as int)
            &&& forall|ms: Seq<Model>| #[trigger] items_fit(ms, t) ==> r is Ok && models_of(r->Ok_0@) == ms
        }),
    decreases stop - start, 1nat,
{
    let ghost t = buf@.subrange(start as int, stop as int);
    let mut items: Vec<Value> = Vec::new();
    let mut p: usize = start;
    proof {
        assert(buf@.subrange(start as int, p as int) =~= Seq::<u8>::empty());
        assert forall|ms: Seq<Model>| #[trigger] items_fit(ms, t) implies models_of(items@) == ms.take(0)
            && encode_list(ms.take(0)) == buf@.subrange(start as int, p as int) by {
            assert(ms.take(0) =~= Seq::<Model>::empty());
        }
    }
    while p < stop
        invariant
            start <= p <= stop <= buf@.len(),
            t == buf@.subrange(start as int, stop as int),
            items_within(models_of(items@), p - start),
            forall|ms: Seq<Model>| #[trigger]
                items_fit(ms, t) ==> items@.len() <= ms.len() && models_of(items@) == ms.take(
                    items@.len() as int,
                ) && encode_list(ms.take(items@.len() as int)) == buf@.subrange(start as int, p as int),
        decreases stop - p,
    {
        let ghost k = items@.len() as int;
        let ghost off = p - start;
        let ghost sub = buf@.subrange(p as int, stop as int);
        let ghost before = models_of(items@);
        proof {
            lemma_models_of(items@);
            assert(t.subrange(0, off) =~= buf@.subrange(start as int, p as int));
            assert(sub =~= t.subrange(off, t.len() as int));
            assert forall|ms: Seq<Model>| #[trigger] items_fit(ms, t) implies k < ms.len() && fits(
                ms[k],
                sub,
            ) by {
                lemma_item_at(ms, k, t, off);
            }
        }
        match decode_in(buf, p, stop) {
            Ok((v, n)) => {
                proof {
                    assert(models_of(items@.push(v)) == before.push(v@)) by {
                        assert(items@.push(v).drop_last() =~= items@);
                    }
                    assert(before.push(v@).drop_last() =~= before);
                    assert(encode_list(before.push(v@)) == encode_list(before) + encoding(v@));
                    assert forall|ms: Seq<Model>| #[trigger] items_fit(ms, t) implies k + 1 <= ms.len()
                        && before.push(v@) == ms.take(k + 1) && encode_list(ms.take(k + 1))
                        == buf@.subrange(start as int, p + n) by {
                        lemma_item_at(ms, k, t, off);
                        assert(ms.take(k + 1) =~= ms.take(k).push(ms[k]));
                        assert(sub.subrange(0, n as int) =~= buf@.subrange(p as int, p + n));
                        assert(buf@.subrange(start as int, p + n) =~= buf@.subrange(start as int, p as int)
                            + buf@.subrange(p as int, p + n));
                    }
                }
                items.push(v);
                p = p + n;
            },
            Err(e) => {
                return Err(within_span(e));
            },
        }
    }
    proof {
        assert(buf@.subrange(start as int, p as int) == t);
        assert forall|ms: Seq<Model>| #[trigger] items_fit(ms, t) implies models_of(items@) == ms by {
            lemma_items_done(ms, items@.len() as int, t);
        }
    }
    Ok(items)
}

#[verifier::rlimit(100)]
/// Decodes the key and value pairs that make up `buf[start..stop]` exactly.
fn decode_entries(buf: &[u8], start: usize, stop: usize) -> (r: Result<Vec<(String, Value)>, Error>)
    requires
        start <= stop <= buf@.len(),
    ensures
        ({
            let t = buf@.subrange(start as int, stop as int);
            &&& r is Ok ==> entries_within(entry_models_of(r->Ok_0@), t.len() as int)
            &&& forall|es: Seq<(Seq<char>, Model)>| #[trigger]
                entries_fit(es, t) ==> r is Ok && entry_models_of(r->Ok_0@) == es
        }),
    decreases stop - start, 1nat,
{
    let ghost t = buf@.subrange(start as int, stop as int);
    let mut entries: Vec<(String, Value)> = Vec::new();
    let mut p: usize = start;
    proof {
        assert(buf@.subrange(start as int, p as int) =~= Seq::<u8>::empty());
        assert forall|es: Seq<(Seq<char>, Model)>| #[trigger] entries_fit(es, t) implies entry_models_of(
            entries@,
        ) == es.take(0) && encode_entries(es.take(0)) == buf@.subrange(start as int, p as int) by {
            assert(es.take(0) =~= Seq::<(Seq<char>, Model)>::empty());
        }
    }
    while p < stop
        invariant
            start <= p <= stop <= buf@.len(),
            t == buf@.subrange(start as int, stop as int),
            entries_within(entry_models_of(entries@), p - start),
            forall|es: Seq<(Seq<char>, Model)>| #[trigger]
                entries_fit(es, t) ==> entries@.len() <= es.len() && entry_models_of(entries@)
                    == es.take(entries@.len() as int) && encode_entries(es.take(entries@.len() as int))
                    == buf@.subrange(start as int, p as int),
        decreases stop - p,
    {
        let ghost k = entries@.len() as int;
        let ghost off = p - start;
        let ghost sub = buf@.subrange(p as int, stop as int);
        let ghost before = entry_models_of(entries@);
        proof {
            lemma_entry_models_of(entries@);
            assert(t.subrange(0, off) =~= buf@.subrange(start as int, p as int));
            assert(sub =~= t.subrange(off, t.len() as int));
            assert forall|es: Seq<(Seq<char>, Model)>| #[trigger] entries_fit(es, t) implies k < es.len()
                && fits(Model::String(es[k].0), sub) by {
                lemma_entry_at(es, k, t, off);
            }
        }
        let (kv, n1) = match decode_in(buf, p, stop) {
            Ok(x) => x,
            Err(e) => {
                return Err(within_span(e));
            },
        };
        let key = match kv {
            Value::String(key) => key,
            _ => {
                proof {
                    assert forall|es: Seq<(Seq<char>, Model)>| #[trigger] entries_fit(es, t) implies false by {
                        assert(fits(Model::String(es[k].0), sub));
                    }
                }
                return Err(Error::TypeMismatch);
            },
        };
        let q = p + n1;
        let ghost sub2 = buf@.subrange(q as int, stop as int);
        proof {
            lemma_key_encoding(key@);
            assert(sub2 =~= t.subrange(off + n1, t.len() as int));
            assert forall|es: Seq<(Seq<char>, Model)>| #[trigger] entries_fit(es, t) implies key@ == es[k].0
                && fits(es[k].1, sub2) by {
                lemma_entry_at(es, k, t, off);
                lemma_key_encoding(es[k].0);
            }
        }
        match decode_in(buf, q, stop) {
            Ok((v, n2)) => {
                proof {
                    assert(entry_models_of(entries@.push((key, v))) == before.push((key@, v@))) by {
                        assert(entries@.push((key, v)).drop_last() =~= entries@);
                    }
                    assert(before.push((key@, v@)).drop_last() =~= before);
                    assert(encode_entries(before.push((key@, v@))) == encode_entries(before) + key_encoding(
                        key@,
                    ) + encoding(v@));
                    assert forall|es: Seq<(Seq<char>, Model)>| #[trigger] entries_fit(es, t) implies k + 1
                        <= es.len() && before.push((key@, v@)) == es.take(k + 1) && encode_entries(
                        es.take(k + 1),
                    ) == buf@.subrange(start as int, q + n2) by {
                        lemma_entry_at(es, k, t, off);
                        lemma_key_encoding(es[k].0);
                        assert(es.take(k + 1) =~= es.take(k).push(es[k]));
                        assert(sub.subrange(0, n1 as int) =~= buf@.subrange(p as int, q as int));
                        assert(sub2.subrange(0, n2 as int) =~= buf@.subrange(q as int, q + n2));
                        assert(buf@.subrange(start as int, q + n2) =~= buf@.subrange(start as int, p as int)
                            + buf@.subrange(p as int, q as int) + buf@.subrange(q as int, q + n2));
                    }
                }
                entries.push((key, v));
                p = q + n2;
            },
            Err(e) => {
                return Err(within_span(e));
            },
        }
    }
    proof {
        assert(buf@.subrange(start as int, p as int) == t);
        assert forall|es: Seq<(Seq<char>, Model)>| #[trigger] entries_fit(es, t) implies entry_models_of(
            entries@,
        ) == es by {
            lemma_entries_done(es, entries@.len() as int, t);
        }
    }
    Ok(entries)
}

/// Decodes the value that starts at `offset` in `buf`; returns it and the number
/// of bytes its encoding takes.
pub fn decode(buf: &[u8], offset: usize) -> (r: Result<(Value, usize), Error>)
    ensures
        offset > buf@.len() ==> r == Err::<(Value, usize), Error>(Error::Truncated),
        offset <= buf@.len() ==> decode_outcome(buf@.subrange(offset as int, buf@.len() as int), r),
{
    if offset > buf.len() {
        return Err(Error::Truncated);
    }
    decode_in(buf, offset, buf.len())
}

} // verus!

verus! {

/// Decoding what `encode` writes gives the value back: for every value that fits
/// the format, whatever bytes follow its encoding, `decode` returns that value and
/// the length of its encoding.
pub proof fn lemma_round_trip(m: Model, rest: Seq<u8>, r: Result<(Value, usize), Error>)
    requires
        representable(m),
        decode_outcome(encoding(m) + rest, r),
    ensures
        r is Ok,
        r->Ok_0.0@ == m,
        r->Ok_0.1 == encoding(m).len(),
{
    let s = encoding(m) + rest;
    assert(s.subrange(0, encoding(m).len() as int) =~= encoding(m));
    assert(fits(m, s));
}

} // verus!
