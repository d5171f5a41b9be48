//! Little-endian integers in byte sequences.

use vstd::prelude::*;

verus! {

/// The number that a byte sequence spells, least significant byte first.
pub open spec fn le_value(bytes: Seq<u8>) -> nat
    decreases bytes.len(),
{
    if bytes.len() == 0 {
        0
    } else {
        bytes[0] as nat + 256 * le_value(bytes.drop_first())
    }
}

/// The `n` least significant bytes of `value`, least significant first.
pub open spec fn le_bytes(value: nat, n: nat) -> Seq<u8>
    decreases n,
{
    if n == 0 {
        Seq::<u8>::empty()
    } else {
        seq![(value % 256) as u8] + le_bytes(value / 256, (n - 1) as nat)
    }
}

/// `256` multiplied by itself `n` times: how many values `n` bytes can spell.
pub open spec fn byte_range(n: nat) -> nat
    decreases n,
{
    if n == 0 {
        1
    } else {
        256 * byte_range((n - 1) as nat)
    }
}

/// `le_bytes` yields exactly as many bytes as it is asked for.
pub proof fn lemma_le_bytes_len(value: nat, n: nat)
    ensures
        le_bytes(value, n).len() == n,
    decreases n,
{
    if n > 0 {
        lemma_le_bytes_len(value / 256, (n - 1) as nat);
    }
}

/// Reading back what was written gives the number written, if it fits.
pub proof fn lemma_le_round_trip(value: nat, n: nat)
    requires
        value < byte_range(n),
    ensures
        le_bytes(value, n).len() == n,
        le_value(le_bytes(value, n)) == value,
    decreases n,
{
    lemma_le_bytes_len(value, n);
    if n > 0 {
        let rest = le_bytes(value / 256, (n - 1) as nat);
        lemma_le_round_trip(value / 256, (n - 1) as nat);
        assert(le_bytes(value, n).drop_first() =~= rest);
    }
}

/// The four-byte case of the round trip.
pub proof fn lemma_le_round_trip_u32(value: u32)
    ensures
        le_bytes(value as nat, 4).len() == 4,
        le_value(le_bytes(value as nat, 4)) == value,
{
    reveal_with_fuel(byte_range, 5);
    lemma_le_round_trip(value as nat, 4);
}

/// Append `value` to `buf` as two little-endian bytes.
pub fn push_u16_le(buf: &mut Vec<u8>, value: u16)
    ensures
        final(buf)@ == old(buf)@ + le_bytes(value as nat, 2),
{
    proof {
        reveal_with_fuel(le_bytes, 3);
    }
    buf.push((value % 256) as u8);
    buf.push((value / 256) as u8);
}

/// Append `value` to `buf` as four little-endian bytes.
pub fn push_u32_le(buf: &mut Vec<u8>, value: u32)
    ensures
        final(buf)@ == old(buf)@ + le_bytes(value as nat, 4),
{
    proof {
        reveal_with_fuel(le_bytes, 5);
    }
    buf.push((value % 256) as u8);
    buf.push((value / 256 % 256) as u8);
    buf.push((value / 256 / 256 % 256) as u8);
    buf.push((value / 256 / 256 / 256) as u8);
}

/// Append `value` to `buf` as eight little-endian bytes.
pub fn push_u64_le(buf: &mut Vec<u8>, value: u64)
    ensures
        final(buf)@ == old(buf)@ + le_bytes(value as nat, 8),
{
    let ghost start = buf@;
    let mut rest: u64 = value;
    let mut i: usize = 0;
    assert(buf@ + le_bytes(value as nat, 8) =~= start + le_bytes(value as nat, 8));
    while i < 8
        invariant
            i <= 8,
            buf@ + le_bytes(rest as nat, (8 - i) as nat) == start + le_bytes(value as nat, 8),
        decreases 8 - i,
    {
        let ghost before = buf@;
        let ghost rest_before = rest;
        buf.push((rest % 256) as u8);
        rest = rest / 256;
        i = i + 1;
        proof {
            assert(buf@ + le_bytes(rest as nat, (8 - i) as nat) =~= before + le_bytes(
                rest_before as nat,
                (8 - i + 1) as nat,
            ));
        }
    }
    assert(buf@ =~= buf@ + le_bytes(rest as nat, 0));
}

/// The two-byte little-endian number at `pos`.
pub fn read_u16_le(data: &[u8], pos: usize) -> (value: u16)
    requires
        pos + 2 <= data@.len(),
    ensures
        value == le_value(data@.subrange(pos as int, pos + 2)),
{
    proof {
        reveal_with_fuel(le_value, 3);
        let s = data@.subrange(pos as int, pos + 2);
        assert(s.drop_first()[0] == data@[pos + 1]);
    }
    data[pos] as u16 + 256 * data[pos + 1] as u16
}

/// The four-byte little-endian number at `pos`.
pub fn read_u32_le(data: &[u8], pos: usize) -> (value: u32)
    requires
        pos + 4 <= data@.len(),
    ensures
        value == le_value(data@.subrange(pos as int, pos + 4)),
{
    proof {
        reveal_with_fuel(le_value, 5);
        let s = data@.subrange(pos as int, pos + 4);
        assert(s.drop_first()[0] == data@[pos + 1]);
        assert(s.drop_first().drop_first()[0] == data@[pos + 2]);
        assert(s.drop_first().drop_first().drop_first()[0] == data@[pos + 3]);
    }
    data[pos] as u32 + 256 * (data[pos + 1] as u32 + 256 * (data[pos + 2] as u32 + 256
        * data[pos + 3] as u32))
}

/// The eight-byte little-endian number at `pos`.
pub fn read_u64_le(data: &[u8], pos: usize) -> (value: u64)
    requires
        pos + 8 <= data@.len(),
    ensures
        value == le_value(data@.subrange(pos as int, pos + 8)),
{
    assert(data.len() == data@.len());
    let low: u32 = read_u32_le(data, pos);
    let high: u32 = read_u32_le(data, pos + 4);
    proof {
        lemma_le_value_concat(
            data@.subrange(pos as int, pos + 4),
            data@.subrange(pos + 4, pos + 8),
        );
        assert(data@.subrange(pos as int, pos + 4) + data@.subrange(pos + 4, pos + 8)
            =~= data@.subrange(pos as int, pos + 8));
        reveal_with_fuel(byte_range, 5);
    }
    low as u64 + 0x1_0000_0000 * high as u64
}

/// The later bytes weigh as much as the earlier ones can spell.
pub proof fn lemma_le_value_concat(a: Seq<u8>, b: Seq<u8>)
    ensures
        le_value(a + b) == le_value(a) + byte_range(a.len()) * le_value(b),
    decreases a.len(),
{
    if a.len() == 0 {
        assert(a + b =~= b);
        assert(byte_range(a.len()) * le_value(b) == le_value(b)) by (nonlinear_arith)
            requires
                byte_range(a.len()) == 1,
        ;
    } else {
        lemma_le_value_concat(a.drop_first(), b);
        assert((a + b).drop_first() =~= a.drop_first() + b);
        let r = byte_range((a.len() - 1) as nat);
        let v = le_value(b);
        assert(256 * (r * v) == (256 * r) * v) by (nonlinear_arith);
        assert(byte_range(a.len()) == 256 * r);
    }
}

/// Append all of `bytes` to `buf`.
pub fn push_all(buf: &mut Vec<u8>, bytes: &[u8])
    ensures
        final(buf)@ == old(buf)@ + bytes@,
{
    buf.extend_from_slice(bytes);
}

/// All parts, one behind the other.
pub open spec fn joined(parts: Seq<Seq<u8>>) -> Seq<u8>
    decreases parts.len(),
{
    if parts.len() == 0 {
        Seq::<u8>::empty()
    } else {
        joined(parts.drop_last()) + parts.last()
    }
}

/// One more part adds its bytes at the end.
pub proof fn lemma_joined_push(parts: Seq<Seq<u8>>, part: Seq<u8>)
    ensures
        joined(parts.push(part)) == joined(parts) + part,
{
    assert(parts.push(part).drop_last() =~= parts);
}

/// Joining two lists of parts is joining each and appending.
pub proof fn lemma_joined_concat(a: Seq<Seq<u8>>, b: Seq<Seq<u8>>)
    ensures
        joined(a + b) == joined(a) + joined(b),
    decreases b.len(),
{
    if b.len() == 0 {
        assert(a + b =~= a);
        assert(joined(a) + joined(b) =~= joined(a));
    } else {
        lemma_joined_concat(a, b.drop_last());
        assert((a + b).drop_last() =~= a + b.drop_last());
        assert(joined(a + b) =~= joined(a) + joined(b));
    }
}

/// The first part stands in front.
pub proof fn lemma_joined_first(parts: Seq<Seq<u8>>)
    requires
        parts.len() > 0,
    ensures
        joined(parts) == parts[0] + joined(parts.drop_first()),
{
    let one = seq![parts[0]];
    lemma_joined_concat(one, parts.drop_first());
    assert(one + parts.drop_first() =~= parts);
    reveal_with_fuel(joined, 2);
    assert(joined(one) =~= parts[0]);
}

} // verus!
