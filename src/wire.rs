//! Big-endian integers on the wire, read from and appended to byte buffers.
use vstd::prelude::*;

verus! {

/// The two octets of `x`, most significant first.
pub open spec fn u16_bytes(x: u16) -> Seq<u8> {
    seq![(x / 256) as u8, (x % 256) as u8]
}

/// The four octets of `x`, most significant first.
pub open spec fn u32_bytes(x: u32) -> Seq<u8> {
    u16_bytes((x / 65536) as u16) + u16_bytes((x % 65536) as u16)
}

/// The 16-bit integer whose octets start at `pos`.
pub open spec fn u16_at(s: Seq<u8>, pos: int) -> u16 {
    (s[pos] as int * 256 + s[pos + 1] as int) as u16
}

/// The 32-bit integer whose octets start at `pos`.
pub open spec fn u32_at(s: Seq<u8>, pos: int) -> u32 {
    (u16_at(s, pos) as int * 65536 + u16_at(s, pos + 2) as int) as u32
}

pub proof fn lemma_u16_round_trip(x: u16, s: Seq<u8>, pos: int)
    requires
        0 <= pos,
        pos + 2 <= s.len(),
        s.subrange(pos, pos + 2) == u16_bytes(x),
    ensures
        u16_at(s, pos) == x,
{
    assert(s[pos] == u16_bytes(x)[0]);
    assert(s[pos + 1] == u16_bytes(x)[1]);
}

pub proof fn lemma_u32_round_trip(x: u32, s: Seq<u8>, pos: int)
    requires
        0 <= pos,
        pos + 4 <= s.len(),
        s.subrange(pos, pos + 4) == u32_bytes(x),
    ensures
        u32_at(s, pos) == x,
{
    let hi = (x / 65536) as u16;
    let lo = (x % 65536) as u16;
    assert(s.subrange(pos, pos + 2) == u16_bytes(hi)) by {
        assert(s.subrange(pos, pos + 2) =~= s.subrange(pos, pos + 4).subrange(0, 2));
        assert(u32_bytes(x).subrange(0, 2) =~= u16_bytes(hi));
    }
    assert(s.subrange(pos + 2, pos + 4) == u16_bytes(lo)) by {
        assert(s.subrange(pos + 2, pos + 4) =~= s.subrange(pos, pos + 4).subrange(2, 4));
        assert(u32_bytes(x).subrange(2, 4) =~= u16_bytes(lo));
    }
    lemma_u16_round_trip(hi, s, pos);
    lemma_u16_round_trip(lo, s, pos + 2);
}

/// Reading two octets as an integer and writing it back gives the octets.
pub proof fn lemma_u16_bytes_of_at(s: Seq<u8>, pos: int)
    requires
        0 <= pos,
        pos + 2 <= s.len(),
    ensures
        u16_bytes(u16_at(s, pos)) == s.subrange(pos, pos + 2),
{
    let a = s[pos] as int;
    let b = s[pos + 1] as int;
    let x = a * 256 + b;
    assert(0 <= x < 65536) by (nonlinear_arith)
        requires
            0 <= a < 256,
            0 <= b < 256,
            x == a * 256 + b,
    ;
    assert(x / 256 == a && x % 256 == b) by (nonlinear_arith)
        requires
            0 <= a < 256,
            0 <= b < 256,
            x == a * 256 + b,
    ;
    assert(u16_bytes(u16_at(s, pos)) =~= s.subrange(pos, pos + 2));
}

/// Reading four octets as an integer and writing it back gives the octets.
pub proof fn lemma_u32_bytes_of_at(s: Seq<u8>, pos: int)
    requires
        0 <= pos,
        pos + 4 <= s.len(),
    ensures
        u32_bytes(u32_at(s, pos)) == s.subrange(pos, pos + 4),
{
    let hi = u16_at(s, pos) as int;
    let lo = u16_at(s, pos + 2) as int;
    let x = hi * 65536 + lo;
    assert(0 <= x < 0x1_0000_0000 && x / 65536 == hi && x % 65536 == lo) by (nonlinear_arith)
        requires
            0 <= hi < 65536,
            0 <= lo < 65536,
            x == hi * 65536 + lo,
    ;
    lemma_u16_bytes_of_at(s, pos);
    lemma_u16_bytes_of_at(s, pos + 2);
    assert(u32_bytes(u32_at(s, pos)) =~= s.subrange(pos, pos + 4));
}

/// Appends the two octets of `x`.
pub fn put_u16(out: &mut Vec<u8>, x: u16)
    ensures
        final(out)@ == old(out)@ + u16_bytes(x),
{
    out.push((x / 256) as u8);
    out.push((x % 256) as u8);
    assert(final(out)@ =~= old(out)@ + u16_bytes(x));
}

/// Appends the four octets of `x`.
pub fn put_u32(out: &mut Vec<u8>, x: u32)
    ensures
        final(out)@ == old(out)@ + u32_bytes(x),
{
    put_u16(out, (x / 65536) as u16);
    put_u16(out, (x % 65536) as u16);
    assert(final(out)@ =~= old(out)@ + u32_bytes(x));
}

/// Appends every octet of `bytes`.
pub fn put_bytes(out: &mut Vec<u8>, bytes: &[u8])
    ensures
        final(out)@ == old(out)@ + bytes@,
{
    let ghost start = out@;
    let mut i: usize = 0;
    while i < bytes.len()
        invariant
            i <= bytes@.len(),
            out@ == start + bytes@.subrange(0, i as int),
        decreases bytes@.len() - i,
    {
        out.push(bytes[i]);
        i = i + 1;
        assert(out@ =~= start + bytes@.subrange(0, i as int));
    }
    assert(bytes@.subrange(0, i as int) =~= bytes@);
}

/// Reads the 16-bit integer at `pos`.
pub fn get_u16(buf: &[u8], pos: usize) -> (r: u16)
    requires
        pos + 2 <= buf@.len(),
    ensures
        r == u16_at(buf@, pos as int),
{
    (buf[pos] as u16) * 256 + (buf[pos + 1] as u16)
}

/// Reads the 32-bit integer at `pos`.
pub fn get_u32(buf: &[u8], pos: usize) -> (r: u32)
    requires
        pos + 4 <= buf@.len(),
    ensures
        r == u32_at(buf@, pos as int),
{
    let hi = get_u16(buf, pos);
    let n = buf.len();
    assert(pos + 2 < n);
    let lo = get_u16(buf, pos + 2);
    (hi as u32) * 65536 + (lo as u32)
}

} // verus!
