use vstd::prelude::*;

use crate::error::Error;
use crate::kind::{tag_of, type_of_tag, Type};

verus! {

/// The largest payload length that a header can carry: `u64::MAX >> 3`.
pub const MAX_LEN: u64 = 0x1FFF_FFFF_FFFF_FFFF;

/// A value's header, unpacked: its kind and the byte length of its payload.
#[derive(Clone, Copy, Debug, PartialEq, Eq, Structural)]
pub struct Header {
    pub kind: Type,
    pub len: u64,
}

/// The number that a header packs: the length above three bits of kind.
pub open spec fn header_value(kind: Type, len: nat) -> nat {
    len * 8 + tag_of(kind)
}

/// The kind and length that the packed number `raw` holds.
pub open spec fn unpacked(raw: nat) -> (Type, nat) {
    (type_of_tag(raw), raw / 8)
}

/// Packs a kind and a payload length into one number.
pub fn pack_header(kind: Type, len: u64) -> (r: Result<u64, Error>)
    ensures
        len <= MAX_LEN ==> r == Ok::<u64, Error>(header_value(kind, len as nat) as u64),
        len > MAX_LEN ==> r == Err::<u64, Error>(Error::LengthOverflow),
        r is Ok ==> r->Ok_0 as nat == header_value(kind, len as nat),
{
    if len > MAX_LEN {
        return Err(Error::LengthOverflow);
    }
    Ok(len * 8 + kind.tag() as u64)
}

/// Splits a packed number into its kind and its payload length.
pub fn unpack_header(raw: u64) -> (h: Header)
    ensures
        (h.kind, h.len as nat) == unpacked(raw as nat),
        h.len <= MAX_LEN,
{
    Header { kind: Type::from_tag(raw), len: raw / 8 }
}

/// Unpacking a packed header gives back its kind and length, for every kind and
/// every length that fits.
pub proof fn lemma_header_round_trip(kind: Type, len: nat)
    requires
        len <= MAX_LEN,
    ensures
        unpacked(header_value(kind, len)) == (kind, len),
        header_value(kind, len) <= u64::MAX,
{
    assert(tag_of(kind) < 8);
    assert((len * 8 + tag_of(kind)) / 8 == len);
    assert((len * 8 + tag_of(kind)) % 8 == tag_of(kind));
}

} // verus!
