use vstd::prelude::*;

use vstd::utf8::{encode_utf8, encode_utf8_decode_utf8};

use crate::error::Error;
use crate::header::{header_value, lemma_header_round_trip, unpack_header, Header, MAX_LEN};
use crate::kind::Type;
use crate::decode::{lemma_entry_at, lemma_item_at};
use crate::value::{
    encode_entries, encode_list, encoding, entries_fit, fits, items_fit, lemma_list_prefix, key_encoding, kind_of, lemma_entries_prefix,
    lemma_fit_header, lemma_key_encoding, payload, Model,
};
use crate::varint::{
    is_prefix, lemma_spells_same_bytes, lemma_spells_unique, lemma_varint_spells, read_varint, spelled,
    spells, varint, varint_overflows, varint_truncated,
};

verus! {

/// The header that a value is written with.
pub open spec fn header_of(m: Model) -> Header {
    Header { kind: kind_of(m), len: payload(m).len() as u64 }
}

/// The bytes that the header at `p` in `b` takes: the length of the varint that
/// starts there, in whatever form it is written.
pub open spec fn head_len(b: Seq<u8>, p: int) -> int {
    choose|n: int| spells(b.subrange(p, b.len() as int), n)
}

/// The bytes that the value at `p` in `b`, with header `hd`, takes: header and
/// payload.
pub open spec fn span_at(b: Seq<u8>, p: int, hd: Header) -> int {
    head_len(b, p) + hd.len
}

/// The header `hd` stands at `p` in `b`, and the value it heads ends by `end`.
pub open spec fn value_at_pos(b: Seq<u8>, p: int, end: int, hd: Header) -> bool {
    &&& 0 <= p <= end <= b.len()
    &&& hd.len <= MAX_LEN
    &&& spells(b.subrange(p, end), head_len(b, p))
    &&& spelled(b.subrange(p, end), head_len(b, p)) == header_value(hd.kind, hd.len as nat)
    &&& p + span_at(b, p, hd) <= end
}

/// A varint read at `p` within `end` is the one `head_len` measures.
pub proof fn lemma_head_len(b: Seq<u8>, p: int, end: int, n: int)
    requires
        0 <= p <= end <= b.len(),
        spells(b.subrange(p, end), n),
    ensures
        head_len(b, p) == n,
{
    let w = b.subrange(p, b.len() as int);
    assert(b.subrange(p, end).subrange(0, n) =~= w.subrange(0, n));
    lemma_spells_same_bytes(b.subrange(p, end), w, n);
    let c = choose|c: int| spells(w, c);
    lemma_spells_unique(w, c, n);
}

/// Where the value after the `i`-th of `offs` starts: the next offset, or `upto`
/// after the last.
pub open spec fn next_of(offs: Seq<(usize, Header)>, i: int, upto: int) -> int {
    if i + 1 < offs.len() {
        offs[i + 1].0 as int
    } else {
        upto
    }
}

/// `offs` are the values that follow each other from `start` to `upto`, each
/// one ending by `stop`.
pub open spec fn chain(b: Seq<u8>, start: int, upto: int, stop: int, offs: Seq<(usize, Header)>) -> bool {
    &&& forall|i: int|
        #![trigger offs[i]]
        0 <= i < offs.len() ==> value_at_pos(b, offs[i].0 as int, stop, offs[i].1) && offs[i].0
            + span_at(b, offs[i].0 as int, offs[i].1) == next_of(offs, i, upto)
    &&& if offs.len() == 0 {
        start == upto
    } else {
        offs[0].0 == start
    }
}

/// At `offset` in `b` stands an array, and `offs` are its elements, in order,
/// ending exactly where its payload ends.
pub open spec fn array_walk(b: Seq<u8>, offset: int, offs: Seq<(usize, Header)>) -> bool {
    exists|hd: Header|
        #![trigger value_at_pos(b, offset, b.len() as int, hd)]
        value_at_pos(b, offset, b.len() as int, hd) && hd.kind == Type::Array && chain(
            b,
            offset + head_len(b, offset as int),
            offset + span_at(b, offset as int, hd),
            offset + span_at(b, offset as int, hd),
            offs,
        )
}

/// Reads the header at `p` and checks that the value it heads ends by `end`.
/// Returns the header and the bytes it takes.
pub fn read_header(buf: &[u8], p: usize, end: usize) -> (r: Result<(Header, usize), Error>)
    requires
        p <= end <= buf@.len(),
    ensures
        r is Ok ==> value_at_pos(buf@, p as int, end as int, r->Ok_0.0) && r->Ok_0.1 == head_len(
            buf@,
            p as int,
        ),
        forall|hd: Header| #[trigger]
            value_at_pos(buf@, p as int, end as int, hd) ==> r is Ok && r->Ok_0.0 == hd,
        forall|m: Model| #[trigger]
            fits(m, buf@.subrange(p as int, end as int)) ==> r is Ok && r->Ok_0.0 == header_of(m),
        varint_truncated(buf@.subrange(p as int, end as int)) ==> r == Err::<(Header, usize), Error>(
            Error::Truncated,
        ),
        varint_overflows(buf@.subrange(p as int, end as int)) ==> r == Err::<(Header, usize), Error>(
            Error::Overflow,
        ),
        forall|n: int| #[trigger]
            spells(buf@.subrange(p as int, end as int), n) && p + n + spelled(
                buf@.subrange(p as int, end as int),
                n,
            ) / 8 > end ==> r == Err::<(Header, usize), Error>(Error::Truncated),
{
    let ghost s = buf@.subrange(p as int, end as int);
    let (raw, h) = match read_varint(buf, p, end) {
        Ok(x) => x,
        Err(e) => {
            proof {
                assert forall|m: Model| #[trigger] fits(m, s) implies false by {
                    crate::value::lemma_fit_has_header(m, s);
                    lemma_varint_spells(header_value(kind_of(m), payload(m).len()) as u64, s);
                }
            }
            return Err(e);
        },
    };
    let hd = unpack_header(raw);
    proof {
        lemma_head_len(buf@, p as int, end as int, h as int);
        assert(raw as nat == header_value(hd.kind, hd.len as nat));
        assert forall|n: int| #[trigger] spells(s, n) implies n == h by {
            lemma_spells_unique(s, n, h as int);
        }
        assert forall|hd2: Header| #[trigger] value_at_pos(buf@, p as int, end as int, hd2) implies hd2
            == hd by {
            lemma_header_round_trip(hd2.kind, hd2.len as nat);
        }
        assert forall|m: Model| #[trigger] fits(m, s) implies hd == header_of(m) by {
            lemma_fit_header(m, s, raw, h as int);
        }
    }
    if hd.len > (end - p - h) as u64 {
        proof {
            assert forall|m: Model| #[trigger] fits(m, s) implies false by {
                lemma_fit_header(m, s, raw, h as int);
            }
        }
        return Err(Error::Truncated);
    }
    Ok((hd, h))
}

/// The offset just past the value that starts at `offset`: its header is read,
/// its payload is not.
pub fn skip_value(buf: &[u8], offset: usize) -> (r: Result<usize, Error>)
    ensures
        r is Ok ==> (exists|hd: Header| #[trigger]
            value_at_pos(buf@, offset as int, buf@.len() as int, hd) && r->Ok_0 == offset + span_at(
                buf@,
                offset as int,
                hd,
            )),
        forall|hd: Header| #[trigger]
            value_at_pos(buf@, offset as int, buf@.len() as int, hd) ==> r == Ok::<usize, Error>(
                (offset + span_at(buf@, offset as int, hd)) as usize,
            ),
        offset <= buf@.len() ==> forall|m: Model| #[trigger]
            fits(m, buf@.subrange(offset as int, buf@.len() as int)) ==> r == Ok::<usize, Error>(
                (offset + encoding(m).len()) as usize,
            ),
        offset > buf@.len() ==> r == Err::<usize, Error>(Error::Truncated),
        offset <= buf@.len() ==> ({
            let s = buf@.subrange(offset as int, buf@.len() as int);
            &&& varint_truncated(s) ==> r == Err::<usize, Error>(Error::Truncated)
            &&& varint_overflows(s) ==> r == Err::<usize, Error>(Error::Overflow)
            &&& forall|n: int| #[trigger]
                spells(s, n) && n + spelled(s, n) / 8 > s.len() ==> r == Err::<usize, Error>(
                    Error::Truncated,
                )
        }),
{
    if offset > buf.len() {
        return Err(Error::Truncated);
    }
    match read_header(buf, offset, buf.len()) {
        Ok((hd, h)) => {
            proof {
                let s = buf@.subrange(offset as int, buf@.len() as int);
                assert forall|m: Model| #[trigger] fits(m, s) implies encoding(m).len() == span_at(
                    buf@,
                    offset as int,
                    hd,
                ) by {
                    lemma_fit_header(m, s, header_value(hd.kind, hd.len as nat) as u64, h as int);
                }
            }
            Ok(offset + h + hd.len as usize)
        },
        Err(e) => Err(e),
    }
}

/// The elements of the array that starts at `offset`, each as its offset and its
/// header, read one header at a time without decoding any payload.
pub fn iterate_array(buf: &[u8], offset: usize) -> (r: Result<Vec<(usize, Header)>, Error>)
    ensures
        offset > buf@.len() ==> r == Err::<Vec<(usize, Header)>, Error>(Error::Truncated),
        r is Ok ==> array_walk(buf@, offset as int, r->Ok_0@),
        forall|offs: Seq<(usize, Header)>| #[trigger]
            array_walk(buf@, offset as int, offs) ==> r is Ok && r->Ok_0@ == offs,
        forall|hd: Header| #[trigger]
            value_at_pos(buf@, offset as int, buf@.len() as int, hd) && hd.kind != Type::Array ==> r
                == Err::<Vec<(usize, Header)>, Error>(Error::TypeMismatch),
{
    if offset > buf.len() {
        return Err(Error::Truncated);
    }
    let (hd, h) = match read_header(buf, offset, buf.len()) {
        Ok(x) => x,
        Err(e) => return Err(e),
    };
    match hd.kind {
        Type::Array => {},
        _ => return Err(Error::TypeMismatch),
    }
    let start = offset + h;
    let stop = start + hd.len as usize;
    let mut offs: Vec<(usize, Header)> = Vec::new();
    let mut p: usize = start;
    while p < stop
        invariant
            start <= p <= stop <= buf@.len(),
            start == offset + head_len(buf@, offset as int),
            stop == offset + span_at(buf@, offset as int, hd),
            value_at_pos(buf@, offset as int, buf@.len() as int, hd),
            hd.kind == Type::Array,
            forall|hd2: Header| #[trigger]
                value_at_pos(buf@, offset as int, buf@.len() as int, hd2) ==> hd2 == hd,
            chain(buf@, start as int, p as int, stop as int, offs@),
            forall|o: Seq<(usize, Header)>| #[trigger]
                chain(buf@, start as int, stop as int, stop as int, o) ==> offs@.len() <= o.len()
                    && offs@ == o.take(offs@.len() as int) && p == next_of(
                    o,
                    offs@.len() - 1,
                    stop as int,
                ) && (offs@.len() == 0 ==> (o.len() == 0 ==> p == stop) && (o.len() > 0 ==> p
                    == o[0].0)),
        decreases stop - p,
    {
        let ghost k = offs@.len() as int;
        let (ch, ch_h) = match read_header(buf, p, stop) {
            Ok(x) => x,
            Err(e) => {
                proof {
                    assert forall|o: Seq<(usize, Header)>| #[trigger]
                        chain(buf@, start as int, stop as int, stop as int, o) implies false by {
                        if k < o.len() {
                            assert(o[k].0 == p);
                            assert(value_at_pos(buf@, p as int, stop as int, o[k].1));
                        }
                    }
                }
                return Err(
                    match e {
                        Error::Truncated => Error::MalformedLength,
                        _ => e,
                    },
                );
            },
        };
        let ghost old_offs = offs@;
        let next = p + ch_h + ch.len as usize;
        offs.push((p, ch));
        proof {
            assert forall|i: int| #![trigger offs@[i]] 0 <= i < offs@.len() implies value_at_pos(
                buf@,
                offs@[i].0 as int,
                stop as int,
                offs@[i].1,
            ) && offs@[i].0 + span_at(buf@, offs@[i].0 as int, offs@[i].1) == next_of(offs@, i, next as int) by {
                if i < k {
                    assert(offs@[i] == old_offs[i]);
                }
            }
            assert forall|o: Seq<(usize, Header)>| #[trigger]
                chain(buf@, start as int, stop as int, stop as int, o) implies offs@.len() <= o.len()
                && offs@ == o.take(offs@.len() as int) && next == next_of(o, k, stop as int) by {
                assert(k < o.len());
                assert(o[k].0 == p);
                assert(value_at_pos(buf@, p as int, stop as int, o[k].1));
                assert(o[k].1 == ch);
                assert(offs@ =~= o.take(k + 1));
            }
        }
        p = next;
    }
    proof {
        assert(chain(buf@, start as int, stop as int, stop as int, offs@));
        assert forall|o: Seq<(usize, Header)>| #[trigger] array_walk(buf@, offset as int, o) implies o
            == offs@ by {
            let hd2 = choose|hd2: Header| #[trigger]
                value_at_pos(buf@, offset as int, buf@.len() as int, hd2) && hd2.kind == Type::Array
                    && chain(
                    buf@,
                    offset + head_len(buf@, offset as int),
                    offset + span_at(buf@, offset as int, hd2),
                    offset + span_at(buf@, offset as int, hd2),
                    o,
                );
            assert(hd2 == hd);
            if offs@.len() < o.len() {
                let k = offs@.len() as int;
                if k > 0 {
                    assert(o[k - 1] == offs@[k - 1]);
                }
                assert(o[k].0 + span_at(buf@, o[k].0 as int, o[k].1) <= stop);
                assert(o[k].0 == stop);
                assert(value_at_pos(buf@, o[k].0 as int, stop as int, o[k].1));
            }
            assert(o =~= o.take(offs@.len() as int));
        }
    }
    Ok(offs)
}

} // verus!

verus! {

/// The element at `index` of the array that starts at `offset`, as its offset and
/// header; `None` where the array has fewer elements.
pub fn value_at(buf: &[u8], offset: usize, index: usize) -> (r: Result<Option<(usize, Header)>, Error>)
    ensures
        offset > buf@.len() ==> r == Err::<Option<(usize, Header)>, Error>(Error::Truncated),
        r is Ok ==> (exists|offs: Seq<(usize, Header)>| #[trigger]
            array_walk(buf@, offset as int, offs) && r->Ok_0 == (if index < offs.len() {
                Some(offs[index as int])
            } else {
                None
            })),
        forall|offs: Seq<(usize, Header)>| #[trigger]
            array_walk(buf@, offset as int, offs) ==> r == Ok::<Option<(usize, Header)>, Error>(
                if index < offs.len() {
                    Some(offs[index as int])
                } else {
                    None
                },
            ),
{
    let offs = match iterate_array(buf, offset) {
        Ok(offs) => offs,
        Err(e) => return Err(e),
    };
    if index < offs.len() {
        Ok(Some(offs[index]))
    } else {
        Ok(None)
    }
}

/// Where the entry after the `i`-th of `es` starts: the next key, or `upto`
/// after the last.
pub open spec fn next_entry(es: Seq<(usize, Header, usize, Header)>, i: int, upto: int) -> int {
    if i + 1 < es.len() {
        es[i + 1].0 as int
    } else {
        upto
    }
}

/// `e` is a key that is a string, followed by its value, each ending by `stop`.
pub open spec fn entry_at(b: Seq<u8>, stop: int, e: (usize, Header, usize, Header)) -> bool {
    &&& value_at_pos(b, e.0 as int, stop, e.1)
    &&& e.1.kind == Type::String
    &&& e.0 + span_at(b, e.0 as int, e.1) == e.2
    &&& value_at_pos(b, e.2 as int, stop, e.3)
}

/// `es` are key and value pairs that follow each other from `start` to `upto`.
pub open spec fn entry_chain(
    b: Seq<u8>,
    start: int,
    upto: int,
    stop: int,
    es: Seq<(usize, Header, usize, Header)>,
) -> bool {
    &&& forall|i: int|
        #![trigger es[i]]
        0 <= i < es.len() ==> entry_at(b, stop, es[i]) && es[i].2 + span_at(b, es[i].2 as int, es[i].3) == next_entry(
            es,
            i,
            upto,
        )
    &&& if es.len() == 0 {
        start == upto
    } else {
        es[0].0 == start
    }
}

/// At `offset` in `b` stands an object, and `es` are its entries, in order,
/// ending exactly where its payload ends.
pub open spec fn object_walk(b: Seq<u8>, offset: int, es: Seq<(usize, Header, usize, Header)>) -> bool {
    exists|hd: Header|
        #![trigger value_at_pos(b, offset, b.len() as int, hd)]
        value_at_pos(b, offset, b.len() as int, hd) && hd.kind == Type::Object && entry_chain(
            b,
            offset + head_len(b, offset as int),
            offset + span_at(b, offset as int, hd),
            offset + span_at(b, offset as int, hd),
            es,
        )
}

/// Reads the entry whose key starts at `p`: the key's header, which must be a
/// string's, and the value's header. Returns the entry and where the next begins.
fn read_entry(buf: &[u8], p: usize, stop: usize) -> (r: Result<((usize, Header, usize, Header), usize), Error>)
    requires
        p <= stop <= buf@.len(),
    ensures
        r is Ok ==> entry_at(buf@, stop as int, r->Ok_0.0) && r->Ok_0.0.0 == p && r->Ok_0.1
            == r->Ok_0.0.2 + span_at(buf@, r->Ok_0.0.2 as int, r->Ok_0.0.3),
        forall|e: (usize, Header, usize, Header)| #[trigger]
            entry_at(buf@, stop as int, e) && e.0 == p ==> r is Ok && r->Ok_0.0 == e,
{
    let (kh, kh_len) = match read_header(buf, p, stop) {
        Ok(x) => x,
        Err(e) => {
            return Err(
                match e {
                    Error::Truncated => Error::MalformedLength,
                    _ => e,
                },
            );
        },
    };
    match kh.kind {
        Type::String => {},
        _ => return Err(Error::TypeMismatch),
    }
    let q = p + kh_len + kh.len as usize;
    let (vh, vh_len) = match read_header(buf, q, stop) {
        Ok(x) => x,
        Err(e) => {
            return Err(
                match e {
                    Error::Truncated => Error::MalformedLength,
                    _ => e,
                },
            );
        },
    };
    Ok(((p, kh, q, vh), q + vh_len + vh.len as usize))
}

/// One more entry read where the walk stands extends the walk, and agrees with every
/// walk of the whole object.
proof fn lemma_entry_step(
    b: Seq<u8>,
    start: int,
    stop: int,
    p: int,
    es: Seq<(usize, Header, usize, Header)>,
    e: (usize, Header, usize, Header),
    next: int,
)
    requires
        entry_chain(b, start, p, stop, es),
        entry_at(b, stop, e),
        e.0 == p,
        e.2 + span_at(b, e.2 as int, e.3) == next,
        forall|e2: (usize, Header, usize, Header)| #[trigger]
            entry_at(b, stop, e2) && e2.0 == p ==> e2 == e,
        forall|o: Seq<(usize, Header, usize, Header)>| #[trigger]
            entry_chain(b, start, stop, stop, o) ==> es.len() <= o.len() && es == o.take(
                es.len() as int,
            ) && p == next_entry(o, es.len() - 1, stop),
        p < stop,
    ensures
        entry_chain(b, start, next, stop, es.push(e)),
        forall|o: Seq<(usize, Header, usize, Header)>| #[trigger]
            entry_chain(b, start, stop, stop, o) ==> es.len() + 1 <= o.len() && es.push(e)
                == o.take((es.len() + 1) as int) && next == next_entry(o, es.len() as int, stop),
{
    let k = es.len() as int;
    let ne = es.push(e);
    assert forall|i: int| #![trigger ne[i]] 0 <= i < ne.len() implies entry_at(b, stop, ne[i])
        && ne[i].2 + span_at(b, ne[i].2 as int, ne[i].3) == next_entry(ne, i, next) by {
        if i < k {
            assert(ne[i] == es[i]);
        }
    }
    assert forall|o: Seq<(usize, Header, usize, Header)>| #[trigger]
        entry_chain(b, start, stop, stop, o) implies k + 1 <= o.len() && ne == o.take(k + 1)
        && next == next_entry(o, k, stop) by {
        assert(k < o.len());
        assert(o[k].0 == p);
        assert(entry_at(b, stop, o[k]));
        assert(o[k] == e);
        assert(ne =~= o.take(k + 1));
    }
}

/// The entries of the object that starts at `offset`, each as the offset and
/// header of its key and of its value, read one header at a time.
pub fn iterate_object(buf: &[u8], offset: usize) -> (r: Result<Vec<(usize, Header, usize, Header)>, Error>)
    ensures
        offset > buf@.len() ==> r == Err::<Vec<(usize, Header, usize, Header)>, Error>(Error::Truncated),
        r is Ok ==> object_walk(buf@, offset as int, r->Ok_0@),
        forall|es: Seq<(usize, Header, usize, Header)>| #[trigger]
            object_walk(buf@, offset as int, es) ==> r is Ok && r->Ok_0@ == es,
        forall|hd: Header| #[trigger]
            value_at_pos(buf@, offset as int, buf@.len() as int, hd) && hd.kind != Type::Object ==> r
                == Err::<Vec<(usize, Header, usize, Header)>, Error>(Error::TypeMismatch),
{
    if offset > buf.len() {
        return Err(Error::Truncated);
    }
    let (hd, h) = match read_header(buf, offset, buf.len()) {
        Ok(x) => x,
        Err(e) => return Err(e),
    };
    match hd.kind {
        Type::Object => {},
        _ => return Err(Error::TypeMismatch),
    }
    let start = offset + h;
    let stop = start + hd.len as usize;
    let mut es: Vec<(usize, Header, usize, Header)> = Vec::new();
    let mut p: usize = start;
    while p < stop
        invariant
            start <= p <= stop <= buf@.len(),
            start == offset + head_len(buf@, offset as int),
            stop == offset + span_at(buf@, offset as int, hd),
            value_at_pos(buf@, offset as int, buf@.len() as int, hd),
            hd.kind == Type::Object,
            forall|hd2: Header| #[trigger]
                value_at_pos(buf@, offset as int, buf@.len() as int, hd2) ==> hd2 == hd,
            entry_chain(buf@, start as int, p as int, stop as int, es@),
            forall|o: Seq<(usize, Header, usize, Header)>| #[trigger]
                entry_chain(buf@, start as int, stop as int, stop as int, o) ==> es@.len() <= o.len()
                    && es@ == o.take(es@.len() as int) && p == next_entry(
                    o,
                    es@.len() - 1,
                    stop as int,
                ),
        decreases stop - p,
    {
        let ghost k = es@.len() as int;
        let (e, next) = match read_entry(buf, p, stop) {
            Ok(x) => x,
            Err(err) => {
                proof {
                    assert forall|o: Seq<(usize, Header, usize, Header)>| #[trigger]
                        entry_chain(buf@, start as int, stop as int, stop as int, o) implies false by {
                        if k < o.len() {
                            assert(o[k].0 == p);
                            assert(entry_at(buf@, stop as int, o[k]));
                        }
                    }
                }
                return Err(err);
            },
        };
        proof {
            lemma_entry_step(buf@, start as int, stop as int, p as int, es@, e, next as int);
        }
        es.push(e);
        p = next;
    }
    proof {
        assert(entry_chain(buf@, start as int, stop as int, stop as int, es@));
        assert forall|o: Seq<(usize, Header, usize, Header)>| #[trigger]
            object_walk(buf@, offset as int, o) implies o == es@ by {
            let hd2 = choose|hd2: Header| #[trigger]
                value_at_pos(buf@, offset as int, buf@.len() as int, hd2) && hd2.kind == Type::Object
                    && entry_chain(
                    buf@,
                    offset + head_len(buf@, offset as int),
                    offset + span_at(buf@, offset as int, hd2),
                    offset + span_at(buf@, offset as int, hd2),
                    o,
                );
            assert(hd2 == hd);
            if es@.len() < o.len() {
                let k = es@.len() as int;
                if k > 0 {
                    assert(o[k - 1] == es@[k - 1]);
                }
                assert(entry_at(buf@, stop as int, o[k]));
                assert(o[k].0 == stop);
            }
            assert(o =~= o.take(es@.len() as int));
        }
    }
    Ok(es)
}

} // verus!

verus! {

/// The key of entry `e` holds exactly the bytes `kb`.
pub open spec fn key_matches(b: Seq<u8>, e: (usize, Header, usize, Header), kb: Seq<u8>) -> bool {
    b.subrange(e.0 + head_len(b, e.0 as int), e.0 + span_at(b, e.0 as int, e.1)) == kb
}

/// Entry `i` of `es` is the first whose key holds the bytes `kb`.
pub open spec fn first_match_at(b: Seq<u8>, es: Seq<(usize, Header, usize, Header)>, kb: Seq<u8>, i: int) -> bool {
    &&& 0 <= i < es.len()
    &&& key_matches(b, es[i], kb)
    &&& forall|j: int| 0 <= j < i ==> !key_matches(b, #[trigger] es[j], kb)
}

/// `buf[a..b]` holds exactly the bytes of `kb`.
fn same_bytes(buf: &[u8], a: usize, b: usize, kb: &[u8]) -> (r: bool)
    requires
        a <= b <= buf@.len(),
    ensures
        r == (buf@.subrange(a as int, b as int) == kb@),
{
    if b - a != kb.len() {
        return false;
    }
    let mut i: usize = 0;
    while i < kb.len()
        invariant
            a <= b <= buf@.len(),
            b - a == kb@.len(),
            i <= kb@.len(),
            forall|j: int| 0 <= j < i ==> buf@[a + j] == kb@[j],
        decreases kb@.len() - i,
    {
        if buf[a + i] != kb[i] {
            assert(buf@.subrange(a as int, b as int)[i as int] != kb@[i as int]);
            return false;
        }
        i = i + 1;
    }
    assert(buf@.subrange(a as int, b as int) =~= kb@);
    true
}

/// Where `es` are the entries of an object, `x` is the value of the first entry
/// whose key holds the bytes `kb`, or `None` where no key does.
pub open spec fn found_in(
    b: Seq<u8>,
    es: Seq<(usize, Header, usize, Header)>,
    kb: Seq<u8>,
    x: Option<(usize, Header)>,
) -> bool {
    match x {
        Some(v) => exists|i: int| first_match_at(b, es, kb, i) && v == (es[i].2, es[i].3),
        None => forall|i: int| 0 <= i < es.len() ==> !key_matches(b, #[trigger] es[i], kb),
    }
}

/// At `offset` in `b` stands an object whose first entries are `es`, each one
/// ending by the end of the object.
pub open spec fn object_starts_with(b: Seq<u8>, offset: int, es: Seq<(usize, Header, usize, Header)>) -> bool {
    exists|hd: Header|
        #![trigger value_at_pos(b, offset, b.len() as int, hd)]
        value_at_pos(b, offset, b.len() as int, hd) && hd.kind == Type::Object && es.len() > 0
            && entry_chain(
            b,
            offset + head_len(b, offset),
            es.last().2 + span_at(b, es.last().2 as int, es.last().3),
            offset + span_at(b, offset, hd),
            es,
        )
}

/// Where the entries read so far end in a match, every walk of the whole object
/// finds that same entry first.
proof fn lemma_found_first(
    b: Seq<u8>,
    offset: int,
    hd: Header,
    es: Seq<(usize, Header, usize, Header)>,
    kb: Seq<u8>,
)
    requires
        value_at_pos(b, offset, b.len() as int, hd),
        hd.kind == Type::Object,
        forall|hd2: Header| #[trigger] value_at_pos(b, offset, b.len() as int, hd2) ==> hd2 == hd,
        es.len() > 0,
        entry_chain(
            b,
            offset + head_len(b, offset),
            es.last().2 + span_at(b, es.last().2 as int, es.last().3),
            offset + span_at(b, offset, hd),
            es,
        ),
        key_matches(b, es.last(), kb),
        forall|j: int| 0 <= j < es.len() - 1 ==> !key_matches(b, #[trigger] es[j], kb),
        forall|o: Seq<(usize, Header, usize, Header)>| #[trigger]
            entry_chain(
                b,
                offset + head_len(b, offset),
                offset + span_at(b, offset, hd),
                offset + span_at(b, offset, hd),
                o,
            ) ==> es.len() <= o.len() && es == o.take(es.len() as int),
    ensures
        object_starts_with(b, offset, es),
        first_match_at(b, es, kb, es.len() - 1),
        forall|o: Seq<(usize, Header, usize, Header)>| #[trigger]
            object_walk(b, offset, o) ==> found_in(b, o, kb, Some((es.last().2, es.last().3))),
{
    let k = es.len() - 1;
    assert forall|o: Seq<(usize, Header, usize, Header)>| #[trigger]
        object_walk(b, offset, o) implies found_in(b, o, kb, Some((es.last().2, es.last().3))) by {
        let hd2 = choose|hd2: Header| #[trigger]
            value_at_pos(b, offset, b.len() as int, hd2) && hd2.kind == Type::Object && entry_chain(
                b,
                offset + head_len(b, offset),
                offset + span_at(b, offset, hd2),
                offset + span_at(b, offset, hd2),
                o,
            );
        assert(hd2 == hd);
        assert(es == o.take(k + 1));
        assert forall|j: int| 0 <= j < k implies !key_matches(b, #[trigger] o[j], kb) by {
            assert(o[j] == es[j]);
        }
        assert(o[k] == es[k]);
        assert(first_match_at(b, o, kb, k));
    }
}

/// The value of the first entry whose key is `key`, in the object that starts at
/// `offset`, as its offset and header. Entries are read one at a time, headers and
/// keys only, and reading stops at the first match; no value is decoded.
#[verifier::rlimit(100)]
pub fn find_key(buf: &[u8], offset: usize, key: &str) -> (r: Result<Option<(usize, Header)>, Error>)
    ensures
        offset > buf@.len() ==> r == Err::<Option<(usize, Header)>, Error>(Error::Truncated),
        forall|es: Seq<(usize, Header, usize, Header)>| #[trigger]
            object_walk(buf@, offset as int, es) ==> r is Ok && found_in(
                buf@,
                es,
                encode_utf8(key@),
                r->Ok_0,
            ),
        r matches Ok(Some(x)) ==> (exists|es: Seq<(usize, Header, usize, Header)>| #[trigger]
            object_starts_with(buf@, offset as int, es) && first_match_at(
                buf@,
                es,
                encode_utf8(key@),
                es.len() - 1,
            ) && x == (es.last().2, es.last().3)),
        r == Ok::<Option<(usize, Header)>, Error>(None) ==> (exists|
            es: Seq<(usize, Header, usize, Header)>,
        | #[trigger] object_walk(buf@, offset as int, es) && found_in(buf@, es, encode_utf8(key@), None)),
        forall|hd: Header| #[trigger]
            value_at_pos(buf@, offset as int, buf@.len() as int, hd) && hd.kind != Type::Object ==> r
                == Err::<Option<(usize, Header)>, Error>(Error::TypeMismatch),
{
    let kb = key.as_bytes();
    let ghost kbs = encode_utf8(key@);
    if offset > buf.len() {
        return Err(Error::Truncated);
    }
    let (hd, h) = match read_header(buf, offset, buf.len()) {
        Ok(x) => x,
        Err(e) => return Err(e),
    };
    match hd.kind {
        Type::Object => {},
        _ => return Err(Error::TypeMismatch),
    }
    let start = offset + h;
    let stop = start + hd.len as usize;
    let ghost mut es: Seq<(usize, Header, usize, Header)> = Seq::empty();
    let mut p: usize = start;
    while p < stop
        invariant
            start <= p <= stop <= buf@.len(),
            start == offset + head_len(buf@, offset as int),
            stop == offset + span_at(buf@, offset as int, hd),
            value_at_pos(buf@, offset as int, buf@.len() as int, hd),
            hd.kind == Type::Object,
            kb@ == kbs,
            kbs == encode_utf8(key@),
            forall|hd2: Header| #[trigger]
                value_at_pos(buf@, offset as int, buf@.len() as int, hd2) ==> hd2 == hd,
            entry_chain(buf@, start as int, p as int, stop as int, es),
            forall|j: int| 0 <= j < es.len() ==> !key_matches(buf@, #[trigger] es[j], kbs),
            forall|o: Seq<(usize, Header, usize, Header)>| #[trigger]
                entry_chain(buf@, start as int, stop as int, stop as int, o) ==> es.len() <= o.len()
                    && es == o.take(es.len() as int) && p == next_entry(o, es.len() - 1, stop as int),
        decreases stop - p,
    {
        let ghost k = es.len() as int;
        let (e, next) = match read_entry(buf, p, stop) {
            Ok(x) => x,
            Err(err) => {
                proof {
                    assert forall|o: Seq<(usize, Header, usize, Header)>| #[trigger]
                        entry_chain(buf@, start as int, stop as int, stop as int, o) implies false by {
                        if k < o.len() {
                            assert(o[k].0 == p);
                            assert(entry_at(buf@, stop as int, o[k]));
                        }
                    }
                }
                return Err(err);
            },
        };
        let ghost old_es = es;
        let found = same_bytes(buf, e.0 + (e.2 - e.0 - e.1.len as usize), e.2, kb);
        proof {
            lemma_entry_step(buf@, start as int, stop as int, p as int, es, e, next as int);
            es = es.push(e);
            assert(key_matches(buf@, es[k], kbs) == found);
            assert forall|j: int| 0 <= j < es.len() - 1 implies !key_matches(buf@, #[trigger] es[j], kbs) by {
                assert(es[j] == old_es[j]);
            }
        }
        if found {
            proof {
                lemma_found_first(buf@, offset as int, hd, es, kbs);
            }
            return Ok(Some((e.2, e.3)));
        }
        p = next;
    }
    proof {
        assert(entry_chain(buf@, start as int, stop as int, stop as int, es));
        assert(object_walk(buf@, offset as int, es));
        assert(found_in(buf@, es, kbs, None));
        assert forall|o: Seq<(usize, Header, usize, Header)>| #[trigger]
            object_walk(buf@, offset as int, o) implies o == es by {
            let hd2 = choose|hd2: Header| #[trigger]
                value_at_pos(buf@, offset as int, buf@.len() as int, hd2) && hd2.kind == Type::Object
                    && entry_chain(
                    buf@,
                    offset + head_len(buf@, offset as int),
                    offset + span_at(buf@, offset as int, hd2),
                    offset + span_at(buf@, offset as int, hd2),
                    o,
                );
            assert(hd2 == hd);
            if es.len() < o.len() {
                let k = es.len() as int;
                assert(entry_at(buf@, stop as int, o[k]));
                assert(o[k].0 == stop);
            }
            assert(o =~= o.take(es.len() as int));
        }
    }
    Ok(None)
}

} // verus!

verus! {

/// A value that ends by `stop` is read the same way with the buffer's whole
/// rest in view.
pub proof fn lemma_value_at_widen(b: Seq<u8>, p: int, stop: int, hd: Header)
    requires
        value_at_pos(b, p, stop, hd),
    ensures
        value_at_pos(b, p, b.len() as int, hd),
{
    let n = head_len(b, p);
    assert(b.subrange(p, stop).subrange(0, n) =~= b.subrange(p, b.len() as int).subrange(0, n));
    lemma_spells_same_bytes(b.subrange(p, stop), b.subrange(p, b.len() as int), n);
}

/// Along a walk, offsets strictly increase and every value ends by `upto`.
proof fn lemma_chain_increasing(
    b: Seq<u8>,
    start: int,
    upto: int,
    stop: int,
    offs: Seq<(usize, Header)>,
    j: int,
)
    requires
        chain(b, start, upto, stop, offs),
        0 <= j < offs.len(),
    ensures
        forall|i: int| 0 <= i < j ==> offs[i].0 < #[trigger] offs[j].0,
        start <= offs[j].0,
        offs[j].0 + span_at(b, offs[j].0 as int, offs[j].1) <= upto,
    decreases j,
{
    if j > 0 {
        lemma_chain_increasing(b, start, upto, stop, offs, j - 1);
        assert(offs[j - 1].0 + span_at(b, offs[j - 1].0 as int, offs[j - 1].1) == offs[j].0);
    }
    if j + 1 < offs.len() {
        lemma_chain_increasing_tail(b, start, upto, stop, offs, j + 1);
    }
}

/// Along a walk, every value from the `j`-th on ends by `upto`.
proof fn lemma_chain_increasing_tail(
    b: Seq<u8>,
    start: int,
    upto: int,
    stop: int,
    offs: Seq<(usize, Header)>,
    j: int,
)
    requires
        chain(b, start, upto, stop, offs),
        0 < j < offs.len(),
    ensures
        offs[j].0 + span_at(b, offs[j].0 as int, offs[j].1) <= upto,
    decreases offs.len() - j,
{
    if j + 1 < offs.len() {
        lemma_chain_increasing_tail(b, start, upto, stop, offs, j + 1);
    }
}

/// Walking the elements of an array by skipping: every element's header stands
/// where the one before ends, so `skip_value` on each element's offset gives the
/// next element's offset, or the end of the array's payload after the last; the
/// offsets strictly increase and stay within the payload.
pub proof fn lemma_array_walk_by_skips(b: Seq<u8>, offset: int, offs: Seq<(usize, Header)>)
    requires
        array_walk(b, offset, offs),
    ensures
        exists|hd: Header|
            #![trigger value_at_pos(b, offset, b.len() as int, hd)]
            value_at_pos(b, offset, b.len() as int, hd) && hd.kind == Type::Array && (forall|i: int|
                0 <= i < offs.len() ==> value_at_pos(b, #[trigger] offs[i].0 as int, b.len() as int, offs[i].1)
                    && offset + head_len(b, offset as int) <= offs[i].0 && offs[i].0 + span_at(b, offs[i].0 as int, offs[i].1) == next_of(
                    offs,
                    i,
                    offset + span_at(b, offset as int, hd),
                )) && (forall|i: int, j: int|
                0 <= i < j < offs.len() ==> #[trigger] offs[i].0 < #[trigger] offs[j].0),
{
    let hd = choose|hd: Header| #[trigger]
        value_at_pos(b, offset, b.len() as int, hd) && hd.kind == Type::Array && chain(
            b,
            offset + head_len(b, offset as int),
            offset + span_at(b, offset as int, hd),
            offset + span_at(b, offset as int, hd),
            offs,
        );
    let start = offset + head_len(b, offset as int);
    let stop = offset + span_at(b, offset as int, hd);
    assert forall|i: int| 0 <= i < offs.len() implies value_at_pos(
        b,
        #[trigger] offs[i].0 as int,
        b.len() as int,
        offs[i].1,
    ) && start <= offs[i].0 && offs[i].0 + span_at(b, offs[i].0 as int, offs[i].1) == next_of(offs, i, stop) by {
        lemma_value_at_widen(b, offs[i].0 as int, stop, offs[i].1);
        lemma_chain_increasing(b, start, stop, stop, offs, i);
    }
    assert forall|i: int, j: int| 0 <= i < j < offs.len() implies #[trigger] offs[i].0
        < #[trigger] offs[j].0 by {
        lemma_chain_increasing(b, start, stop, stop, offs, j);
    }
}

} // verus!

verus! {

/// A value that fits at `p` is read there with its own header, and takes the
/// bytes of its encoding.
pub proof fn lemma_fit_value_at(b: Seq<u8>, p: int, stop: int, m: Model)
    requires
        0 <= p <= stop <= b.len(),
        fits(m, b.subrange(p, stop)),
    ensures
        value_at_pos(b, p, stop, header_of(m)),
        span_at(b, p, header_of(m)) == encoding(m).len(),
{
    let s = b.subrange(p, stop);
    let hv = header_value(kind_of(m), payload(m).len());
    crate::value::lemma_fit_has_header(m, s);
    lemma_varint_spells(hv as u64, s);
    lemma_head_len(b, p, stop, varint(hv).len() as int);
    lemma_header_round_trip(kind_of(m), payload(m).len());
}

/// Where the entries of an encoded object stand, its payload starting at `start`:
/// each key's offset and header, then its value's.
pub open spec fn entry_spans(es: Seq<(Seq<char>, Model)>, start: int) -> Seq<(usize, Header, usize, Header)> {
    Seq::new(
        es.len(),
        |i: int|
            {
                let ko = start + encode_entries(es.take(i)).len();
                (
                    ko as usize,
                    header_of(Model::String(es[i].0)),
                    (ko + key_encoding(es[i].0).len()) as usize,
                    header_of(es[i].1),
                )
            },
    )
}

#[verifier::rlimit(100)]
/// Entry `i` of an encoded object stands where `entry_spans` puts it.
proof fn lemma_entry_span(
    b: Seq<u8>,
    es: Seq<(Seq<char>, Model)>,
    start: int,
    stop: int,
    i: int,
    key: Seq<char>,
)
    requires
        0 <= start <= stop <= b.len() <= usize::MAX,
        entries_fit(es, b.subrange(start, stop)),
        0 <= i < es.len(),
    ensures
        ({
            let spans = entry_spans(es, start);
            let e = spans[i];
            &&& entry_at(b, stop, e)
            &&& e.2 + span_at(b, e.2 as int, e.3) == next_entry(spans, i, stop)
            &&& (key_matches(b, e, encode_utf8(key)) <==> es[i].0 == key)
            &&& b.subrange(e.2 as int, e.2 + encoding(es[i].1).len()) == encoding(es[i].1)
        }),
{
    let t = b.subrange(start, stop);
    let spans = entry_spans(es, start);
    let off = encode_entries(es.take(i)).len() as int;
    lemma_entries_prefix(es, i, es.len() as int);
    lemma_entries_prefix(es, i + 1, es.len() as int);
    assert(es.take(es.len() as int) =~= es);
    assert(t.subrange(0, off) =~= encode_entries(es.take(i)));
    lemma_entry_at(es, i, t, off);
    let ka = key_encoding(es[i].0);
    let ko = start + off;
    let vo = ko + ka.len();
    assert(b.subrange(ko, stop) =~= t.subrange(off, t.len() as int));
    assert(b.subrange(vo, stop) =~= t.subrange(off + ka.len(), t.len() as int));
    lemma_key_encoding(es[i].0);
    lemma_fit_value_at(b, ko, stop, Model::String(es[i].0));
    lemma_fit_value_at(b, vo, stop, es[i].1);
    let next = start + encode_entries(es.take(i + 1)).len();
    assert(vo + encoding(es[i].1).len() == next);
    if i + 1 == es.len() {
        assert(es.take(i + 1) =~= es);
    }
    let kh = header_of(Model::String(es[i].0));
    let u = encode_utf8(es[i].0);
    assert(kh.len as nat == u.len());
    assert(ka.subrange(head_len(b, ko), ka.len() as int) =~= u);
    assert(b.subrange(ko, stop).subrange(0, ka.len() as int) == ka);
    assert(b.subrange(ko + head_len(b, ko), ko + span_at(b, ko, kh)) =~= ka.subrange(
        head_len(b, ko),
        ka.len() as int,
    ));
    encode_utf8_decode_utf8(es[i].0);
    encode_utf8_decode_utf8(key);
    assert(b.subrange(vo, stop).subrange(0, encoding(es[i].1).len() as int) == encoding(es[i].1));
    assert(b.subrange(vo, vo + encoding(es[i].1).len()) =~= b.subrange(vo, stop).subrange(
        0,
        encoding(es[i].1).len() as int,
    ));
}

/// In the encoding of an object built from `es`, the walk over its entries finds
/// exactly the entries of `es`: the key of entry `i` holds the UTF-8 of `key`
/// exactly when the `i`-th key is `key`, and the value of entry `i` spans the
/// encoding of the `i`-th value. So `find_key` answers with the value of the
/// first entry whose key is `key`, or `None` where no key is, and never needs
/// any value to be well formed beyond its header.
pub proof fn lemma_encoded_object_lookup(
    b: Seq<u8>,
    offset: int,
    es: Seq<(Seq<char>, Model)>,
    key: Seq<char>,
)
    requires
        0 <= offset <= b.len() <= usize::MAX,
        fits(Model::Object(es), b.subrange(offset, b.len() as int)),
    ensures
        ({
            let hd = header_of(Model::Object(es));
            let spans = entry_spans(es, offset + head_len(b, offset as int));
            &&& object_walk(b, offset, spans)
            &&& spans.len() == es.len()
            &&& forall|i: int|
                0 <= i < es.len() ==> (key_matches(b, #[trigger] spans[i], encode_utf8(key))
                    <==> es[i].0 == key) && spans[i].3 == header_of(es[i].1) && b.subrange(
                    spans[i].2 as int,
                    spans[i].2 + encoding(es[i].1).len(),
                ) == encoding(es[i].1)
        }),
{
    let m = Model::Object(es);
    let hd = header_of(m);
    lemma_fit_value_at(b, offset, b.len() as int, m);
    let start = offset + head_len(b, offset as int);
    let stop = offset + span_at(b, offset as int, hd);
    let t = b.subrange(start, stop);
    let spans = entry_spans(es, start);
    assert(payload(m) == encode_entries(es));
    assert(t =~= b.subrange(offset, b.len() as int).subrange(head_len(b, offset as int) as int, span_at(b, offset as int, hd) as int));
    assert(t == encode_entries(es)) by {
        assert(is_prefix(encoding(m), b.subrange(offset, b.len() as int)));
        assert(encoding(m) == varint(header_value(kind_of(m), payload(m).len())) + payload(m));
        assert(b.subrange(offset, b.len() as int).subrange(0, encoding(m).len() as int) == encoding(m));
        assert(t =~= encoding(m).subrange(head_len(b, offset as int) as int, encoding(m).len() as int));
    }
    assert(entries_fit(es, t));
    assert forall|i: int| 0 <= i < es.len() implies ({
        let e = #[trigger] spans[i];
        &&& entry_at(b, stop, e)
        &&& e.2 + span_at(b, e.2 as int, e.3) == next_entry(spans, i, stop)
        &&& (key_matches(b, e, encode_utf8(key)) <==> es[i].0 == key)
        &&& b.subrange(e.2 as int, e.2 + encoding(es[i].1).len()) == encoding(es[i].1)
    }) by {
        lemma_entry_span(b, es, start, stop, i, key);
    }
    assert(entry_chain(b, start, stop, stop, spans)) by {
        if es.len() == 0 {
            assert(es.take(0) =~= es);
        }
    }
}

} // verus!

verus! {

/// Where the elements of an encoded array stand, its payload starting at `start`:
/// each one's offset and header.
pub open spec fn item_spans(ms: Seq<Model>, start: int) -> Seq<(usize, Header)> {
    Seq::new(
        ms.len(),
        |i: int| ((start + encode_list(ms.take(i)).len()) as usize, header_of(ms[i])),
    )
}

/// Element `i` of an encoded array stands where `item_spans` puts it.
proof fn lemma_item_span(b: Seq<u8>, ms: Seq<Model>, start: int, stop: int, i: int)
    requires
        0 <= start <= stop <= b.len() <= usize::MAX,
        items_fit(ms, b.subrange(start, stop)),
        0 <= i < ms.len(),
    ensures
        ({
            let spans = item_spans(ms, start);
            &&& value_at_pos(b, spans[i].0 as int, stop, spans[i].1)
            &&& spans[i].0 + span_at(b, spans[i].0 as int, spans[i].1) == next_of(spans, i, stop)
        }),
{
    let t = b.subrange(start, stop);
    let off = encode_list(ms.take(i)).len() as int;
    lemma_list_prefix(ms, i, ms.len() as int);
    lemma_list_prefix(ms, i + 1, ms.len() as int);
    assert(ms.take(ms.len() as int) =~= ms);
    assert(t.subrange(0, off) =~= encode_list(ms.take(i)));
    lemma_item_at(ms, i, t, off);
    assert(b.subrange(start + off, stop) =~= t.subrange(off, t.len() as int));
    lemma_fit_value_at(b, start + off, stop, ms[i]);
    if i + 1 == ms.len() {
        assert(ms.take(i + 1) =~= ms);
    }
}

/// In the encoding of an array of `ms`, the walk over its elements finds exactly
/// the elements of `ms`, each where its encoding stands, and ends where the
/// array's payload ends: with `lemma_array_walk_by_skips`, skipping from element
/// to element visits them all and stops exactly at the array's declared end.
pub proof fn lemma_encoded_array_walk(b: Seq<u8>, offset: int, ms: Seq<Model>)
    requires
        0 <= offset <= b.len() <= usize::MAX,
        fits(Model::Array(ms), b.subrange(offset, b.len() as int)),
    ensures
        ({
            let hd = header_of(Model::Array(ms));
            let spans = item_spans(ms, offset + head_len(b, offset));
            &&& array_walk(b, offset, spans)
            &&& spans.len() == ms.len()
            &&& offset + span_at(b, offset, hd) == offset + encoding(Model::Array(ms)).len()
        }),
{
    let m = Model::Array(ms);
    let hd = header_of(m);
    lemma_fit_value_at(b, offset, b.len() as int, m);
    let start = offset + head_len(b, offset);
    let stop = offset + span_at(b, offset, hd);
    let t = b.subrange(start, stop);
    let spans = item_spans(ms, start);
    crate::value::lemma_fit_has_header(m, b.subrange(offset, b.len() as int));
    lemma_varint_spells(
        header_value(kind_of(m), payload(m).len()) as u64,
        b.subrange(offset, b.len() as int),
    );
    lemma_head_len(
        b,
        offset,
        b.len() as int,
        varint(header_value(kind_of(m), payload(m).len())).len() as int,
    );
    assert(t == encode_list(ms)) by {
        let s = b.subrange(offset, b.len() as int);
        assert(s.subrange(0, encoding(m).len() as int) == encoding(m));
        assert(t =~= encoding(m).subrange(head_len(b, offset), encoding(m).len() as int));
    }
    assert(items_fit(ms, t));
    assert forall|i: int| #![trigger spans[i]] 0 <= i < spans.len() implies value_at_pos(
        b,
        spans[i].0 as int,
        stop,
        spans[i].1,
    ) && spans[i].0 + span_at(b, spans[i].0 as int, spans[i].1) == next_of(spans, i, stop) by {
        lemma_item_span(b, ms, start, stop, i);
    }
    assert(chain(b, start, stop, stop, spans)) by {
        if ms.len() == 0 {
            assert(ms.take(0) =~= ms);
        }
    }
}

} // verus!
