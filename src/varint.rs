use vstd::prelude::*;

use crate::error::Error;

verus! {

/// `128` to the power `k`.
pub open spec fn pow128(k: nat) -> nat
    decreases k,
{
    if k == 0 {
        1
    } else {
        128 * pow128((k - 1) as nat)
    }
}

/// The bytes of `u` as an unsigned LEB128 varint: seven bits a byte, low bits first,
/// the high bit set on every byte but the last.
pub open spec fn varint(u: nat) -> Seq<u8>
    decreases u,
{
    if u < 128 {
        seq![u as u8]
    } else {
        seq![(u % 128 + 128) as u8] + varint(u / 128)
    }
}

/// `p` stands at the start of `s`.
pub open spec fn is_prefix(p: Seq<u8>, s: Seq<u8>) -> bool {
    p.len() <= s.len() && s.subrange(0, p.len() as int) == p
}

/// The number that the seven-bit groups of `s` spell, low group first.
pub open spec fn groups_value(s: Seq<u8>) -> nat
    decreases s.len(),
{
    if s.len() == 0 {
        0
    } else {
        (s[0] % 128) as nat + 128 * groups_value(s.drop_first())
    }
}

/// The first `n` bytes of `s` all carry the continuation bit.
pub open spec fn continued(s: Seq<u8>, n: int) -> bool {
    forall|j: int| 0 <= j < n ==> #[trigger] s[j] >= 128
}

/// `s` is a varint in its shortest form: continuation bits on all bytes but the
/// last, and no final zero group after the first byte.
pub open spec fn canonical(s: Seq<u8>) -> bool {
    &&& s.len() >= 1
    &&& continued(s, s.len() - 1)
    &&& s[s.len() - 1] < 128
    &&& (s.len() > 1 ==> s[s.len() - 1] != 0)
}

/// The first `n` bytes of `s` make one varint: continuation bits on all but the
/// last, and at most the ten bytes that a `u64` needs, the tenth holding one bit.
/// Zero groups at the end are allowed: a varint need not be in its shortest form.
pub open spec fn spells(s: Seq<u8>, n: int) -> bool {
    &&& 1 <= n <= 10
    &&& n <= s.len()
    &&& continued(s, n - 1)
    &&& s[n - 1] < 128
    &&& (n == 10 ==> s[9] <= 1)
}

/// The number that the first `n` bytes of `s` spell.
pub open spec fn spelled(s: Seq<u8>, n: int) -> nat {
    groups_value(s.subrange(0, n))
}

/// The buffer ends inside a varint.
pub open spec fn varint_truncated(s: Seq<u8>) -> bool {
    s.len() < 10 && continued(s, s.len() as int)
}

/// The varint that starts `s` runs past 64 bits.
pub open spec fn varint_overflows(s: Seq<u8>) -> bool {
    s.len() >= 10 && continued(s, 9) && s[9] > 1
}

/// One more byte adds its seven-bit group at the next power of 128.
proof fn lemma_groups_push(t: Seq<u8>, x: u8)
    ensures
        groups_value(t.push(x)) == groups_value(t) + (x % 128) as nat * pow128(t.len()),
    decreases t.len(),
{
    let a = (x % 128) as nat;
    if t.len() == 0 {
        assert(t.push(x).drop_first() =~= Seq::<u8>::empty());
        assert(groups_value(t.push(x)) == a + 128 * groups_value(Seq::<u8>::empty()));
        assert(pow128(0) == 1);
        assert(a * 1 == a);
    } else {
        assert(t.push(x).drop_first() =~= t.drop_first().push(x));
        lemma_groups_push(t.drop_first(), x);
        let g = groups_value(t.drop_first());
        let q = pow128((t.len() - 1) as nat);
        assert(128 * (g + a * q) == 128 * g + a * pow128(t.len())) by (nonlinear_arith)
            requires
                pow128(t.len()) == 128 * q,
        ;
        assert(groups_value(t.push(x)) == (t[0] % 128) as nat + 128 * (g + a * q));
        assert(groups_value(t) == (t[0] % 128) as nat + 128 * g);
    }
}


/// Every varint is canonical, and spells back the number it was made from.
pub proof fn lemma_varint_shape(u: nat)
    ensures
        canonical(varint(u)),
        groups_value(varint(u)) == u,
    decreases u,
{
    let s = varint(u);
    if u < 128 {
        assert(s.drop_first() =~= Seq::<u8>::empty());
        assert(groups_value(s) == (s[0] % 128) as nat + 128 * groups_value(s.drop_first()));
    } else {
        lemma_varint_shape(u / 128);
        assert(s.drop_first() =~= varint(u / 128));
        assert(groups_value(s) == (s[0] % 128) as nat + 128 * groups_value(s.drop_first()));
        assert(s[0] % 128 == u % 128);
        assert(continued(s, s.len() - 1)) by {
            assert forall|j: int| 0 <= j < s.len() - 1 implies #[trigger] s[j] >= 128 by {
                if j > 0 {
                    assert(s[j] == varint(u / 128)[j - 1]);
                }
            }
        }
    }
}

/// Below `c` times `128^k` a varint has at most `k + 1` bytes, and a byte at
/// index `k` is below `c`.
proof fn lemma_varint_tail(u: nat, k: nat, c: nat)
    requires
        1 <= c <= 128,
        u < c * pow128(k),
    ensures
        varint(u).len() <= k + 1,
        varint(u).len() == k + 1 ==> varint(u)[k as int] < c,
    decreases k,
{
    if k == 0 {
        assert(pow128(0) == 1);
        assert(c * 1 == c);
        assert(u < c);
    } else if u >= 128 {
        assert(u / 128 < c * pow128((k - 1) as nat)) by (nonlinear_arith)
            requires
                u < c * pow128(k),
                pow128(k) == 128 * pow128((k - 1) as nat),
        ;
        lemma_varint_tail(u / 128, (k - 1) as nat, c);
        assert(varint(u) == seq![(u % 128 + 128) as u8] + varint(u / 128));
        assert(varint(u).len() == 1 + varint(u / 128).len());
        if varint(u).len() == k + 1 {
            assert(varint(u)[k as int] == varint(u / 128)[k - 1]);
        }
    }
}

/// A varint of a `u64` has at most ten bytes, and a tenth byte is 0 or 1.
pub proof fn lemma_varint_u64(u: u64)
    ensures
        varint(u as nat).len() <= 10,
        varint(u as nat).len() == 10 ==> varint(u as nat)[9] <= 1,
{
    reveal_with_fuel(pow128, 10);
    lemma_varint_tail(u as nat, 9, 2);
}


/// Writes the varint of `u` after what `out` holds.
pub fn push_varint(u: u64, out: &mut Vec<u8>)
    ensures
        final(out)@ == old(out)@ + varint(u as nat),
{
    let mut v: u64 = u;
    while v >= 128
        invariant
            old(out)@ + varint(u as nat) == out@ + varint(v as nat),
        decreases v,
    {
        let b: u8 = (v % 128 + 128) as u8;
        out.push(b);
        assert(varint(v as nat) == seq![b] + varint((v / 128) as nat));
        assert(out@ + varint((v / 128) as nat) =~= old(out)@ + varint(u as nat));
        v = v / 128;
    }
    out.push(v as u8);
    assert(varint(v as nat) == seq![v as u8]);
}

/// The varint of `u`.
pub fn encode_varint(u: u64) -> (r: Vec<u8>)
    ensures
        r@ == varint(u as nat),
        r@.len() >= 1,
{
    let mut out: Vec<u8> = Vec::new();
    push_varint(u, &mut out);
    assert(out@ =~= varint(u as nat));
    proof {
        lemma_varint_shape(u as nat);
    }
    out
}

/// Reads the varint that starts at `pos`, using no byte at or after `end`.
/// On success returns its value and the number of bytes it takes.
pub fn read_varint(buf: &[u8], pos: usize, end: usize) -> (r: Result<(u64, usize), Error>)
    requires
        pos <= end <= buf@.len(),
    ensures
        ({
            let s = buf@.subrange(pos as int, end as int);
            &&& match r {
                Ok((u, n)) => pos + n <= end && spells(s, n as int) && spelled(s, n as int) == u,
                Err(_) => forall|n: int| !#[trigger] spells(s, n),
            }
            &&& (r == Err::<(u64, usize), Error>(Error::Truncated) <==> varint_truncated(s))
            &&& (r == Err::<(u64, usize), Error>(Error::Overflow) <==> varint_overflows(s))
            &&& (r is Err ==> r == Err::<(u64, usize), Error>(Error::Truncated)
                || r == Err::<(u64, usize), Error>(Error::Overflow))
        }),
{
    let ghost s = buf@.subrange(pos as int, end as int);
    let mut value: u64 = 0;
    let mut mult: u64 = 1;
    let mut i: usize = 0;
    loop
        invariant
            end <= buf@.len(),
            pos + i <= end,
            i <= 9,
            s == buf@.subrange(pos as int, end as int),
            mult as nat == pow128(i as nat),
            value as nat == groups_value(s.subrange(0, i as int)),
            value < mult,
            continued(s, i as int),
        decreases 10 - i,
    {
        if i >= end - pos {
            proof {
                assert forall|n: int| !#[trigger] spells(s, n) by {
                    if 1 <= n <= s.len() {
                        assert(s[n - 1] >= 128);
                    }
                }
            }
            return Err(Error::Truncated);
        }
        let b = buf[pos + i];
        assert(b == s[i as int]);
        if i == 9 && b > 1 {
            proof {
                assert forall|n: int| !#[trigger] spells(s, n) by {
                    if 1 <= n < 10 {
                        assert(s[n - 1] >= 128);
                    }
                }
            }
            return Err(Error::Overflow);
        }
        proof {
            reveal_with_fuel(pow128, 10);
            lemma_groups_push(s.subrange(0, i as int), b);
            assert(s.subrange(0, i as int).push(b) =~= s.subrange(0, i + 1));
            assert(value + (b % 128) as nat * mult < 128 * mult as nat) by (nonlinear_arith)
                requires
                    value < mult,
                    (b % 128) < 128,
            ;
            if i == 9 {
                assert(value + (b % 128) as nat * mult < 0x1_0000_0000_0000_0000) by (nonlinear_arith)
                    requires
                        value < mult,
                        b <= 1,
                        mult == 0x8000_0000_0000_0000,
                ;
            } else {
                assert(pow128((i + 1) as nat) <= 0x8000_0000_0000_0000) by {
                    lemma_pow128_mono((i + 1) as nat, 9);
                }
            }
        }
        value = value + ((b % 128) as u64) * mult;
        if b < 128 {
            assert(s.subrange(0, i + 1) == s.subrange(0, (i + 1) as int));
            return Ok((value, i + 1));
        }
        i = i + 1;
        mult = mult * 128;
    }
}

/// Powers of 128 grow with the exponent.
proof fn lemma_pow128_mono(a: nat, b: nat)
    requires
        a <= b,
    ensures
        pow128(a) <= pow128(b),
    decreases b,
{
    if a < b {
        lemma_pow128_mono(a, (b - 1) as nat);
    }
}

/// Reads the varint that starts at `offset` in `buf`; returns its value and the
/// number of bytes it takes.
pub fn decode_varint(buf: &[u8], offset: usize) -> (r: Result<(u64, usize), Error>)
    ensures
        offset > buf@.len() ==> r == Err::<(u64, usize), Error>(Error::Truncated),
        offset <= buf@.len() ==> ({
            let s = buf@.subrange(offset as int, buf@.len() as int);
            &&& match r {
                Ok((u, n)) => offset + n <= buf@.len() && spells(s, n as int) && spelled(s, n as int)
                    == u,
                Err(_) => forall|n: int| !#[trigger] spells(s, n),
            }
            &&& (r == Err::<(u64, usize), Error>(Error::Truncated) <==> varint_truncated(s))
            &&& (r == Err::<(u64, usize), Error>(Error::Overflow) <==> varint_overflows(s))
            &&& (r is Err ==> r == Err::<(u64, usize), Error>(Error::Truncated)
                || r == Err::<(u64, usize), Error>(Error::Overflow))
        }),
{
    if offset > buf.len() {
        return Err(Error::Truncated);
    }
    read_varint(buf, offset, buf.len())
}

/// At most one varint starts a sequence of bytes.
pub proof fn lemma_spells_unique(s: Seq<u8>, a: int, b: int)
    requires
        spells(s, a),
        spells(s, b),
    ensures
        a == b,
{
    if a < b {
        assert(s[a - 1] >= 128);
    } else if b < a {
        assert(s[b - 1] >= 128);
    }
}

/// The shortest varint of `u`, where it starts `s`, is the varint that `s` starts
/// with, and spells `u`.
pub proof fn lemma_varint_spells(u: u64, s: Seq<u8>)
    requires
        is_prefix(varint(u as nat), s),
    ensures
        spells(s, varint(u as nat).len() as int),
        spelled(s, varint(u as nat).len() as int) == u,
{
    lemma_varint_shape(u as nat);
    lemma_varint_u64(u);
    let v = varint(u as nat);
    assert(s.subrange(0, v.len() as int) == v);
    assert forall|j: int| 0 <= j < v.len() - 1 implies #[trigger] s[j] >= 128 by {
        assert(s[j] == s.subrange(0, v.len() as int)[j]);
    }
    assert(s[v.len() - 1] == v[v.len() - 1]);
    if v.len() == 10 {
        assert(s[9] == v[9]);
    }
}

/// Whether and what a varint spells depends on its own bytes alone.
pub proof fn lemma_spells_same_bytes(s1: Seq<u8>, s2: Seq<u8>, n: int)
    requires
        spells(s1, n),
        n <= s2.len(),
        s1.subrange(0, n) == s2.subrange(0, n),
    ensures
        spells(s2, n),
        spelled(s2, n) == spelled(s1, n),
{
    assert forall|j: int| 0 <= j < n implies s2[j] == #[trigger] s1[j] by {
        assert(s1[j] == s1.subrange(0, n)[j]);
        assert(s2[j] == s2.subrange(0, n)[j]);
    }
    assert(s2[n - 1] == s1[n - 1]);
    assert(continued(s2, n - 1)) by {
        assert forall|j: int| 0 <= j < n - 1 implies #[trigger] s2[j] >= 128 by {
            assert(s2[j] == s1[j]);
        }
    }
    if n == 10 {
        assert(s2[9] == s1[9]);
    }
    assert(s2.subrange(0, n) == s1.subrange(0, n));
}

/// A varint of `n` bytes spells a number below `128^n`.
proof fn lemma_groups_bound(s: Seq<u8>)
    ensures
        groups_value(s) < pow128(s.len()),
    decreases s.len(),
{
    if s.len() > 0 {
        lemma_groups_bound(s.drop_first());
        let g = groups_value(s.drop_first());
        let q = pow128((s.len() - 1) as nat);
        let a = (s[0] % 128) as nat;
        assert(a + 128 * g < 128 * q) by (nonlinear_arith)
            requires
                a < 128,
                g < q,
        ;
    }
}

/// The shortest varint of a number is no longer than any varint that spells it.
pub proof fn lemma_shortest(s: Seq<u8>, n: int)
    requires
        spells(s, n),
    ensures
        varint(spelled(s, n)).len() <= n,
{
    lemma_groups_bound(s.subrange(0, n));
    assert(pow128(n as nat) == 128 * pow128((n - 1) as nat));
    lemma_varint_tail(spelled(s, n), (n - 1) as nat, 128);
}

} // verus!

verus! {

/// A larger number never has a shorter varint.
pub proof fn lemma_varint_len_mono(a: nat, b: nat)
    requires
        a <= b,
    ensures
        varint(a).len() <= varint(b).len(),
    decreases b,
{
    if a >= 128 {
        lemma_varint_len_mono(a / 128, b / 128);
    }
}

} // verus!
