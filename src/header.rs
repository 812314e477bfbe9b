//! The fixed twelve-octet message header and its flag word.
use vstd::prelude::*;

use crate::error::DnsError;
use crate::wire::{get_u16, lemma_u16_round_trip, put_u16, u16_at, u16_bytes};

verus! {

/// The flag word of a header: QR, Opcode, AA, TC, RD, RA, Z, AD, CD and
/// RCODE, from the most significant bit down. Every bit is kept as received.
#[derive(Debug, Copy, Clone, PartialEq, Eq, Structural)]
pub struct Flags(pub u16);

impl Flags {
    pub open spec fn bit(&self, n: u16) -> bool {
        (self.0 >> n) & 1 == 1
    }

    pub open spec fn opcode_spec(&self) -> u16 {
        (self.0 >> 11) & 0xf
    }

    pub open spec fn rcode_spec(&self) -> u16 {
        self.0 & 0xf
    }

    /// All bits clear: a standard query with no options set.
    pub fn new() -> (r: Flags)
        ensures
            r.0 == 0,
    {
        Flags(0)
    }

    /// Whether the message is a response.
    pub fn qr(&self) -> (r: bool)
        ensures
            r == self.bit(15),
    {
        (self.0 >> 15) & 1 == 1
    }

    /// The kind of query.
    pub fn opcode(&self) -> (r: u16)
        ensures
            r == self.opcode_spec(),
    {
        (self.0 >> 11) & 0xf
    }

    /// Whether the answer is authoritative.
    pub fn aa(&self) -> (r: bool)
        ensures
            r == self.bit(10),
    {
        (self.0 >> 10) & 1 == 1
    }

    /// Whether the message was truncated.
    pub fn tc(&self) -> (r: bool)
        ensures
            r == self.bit(9),
    {
        (self.0 >> 9) & 1 == 1
    }

    /// Whether recursion is desired.
    pub fn rd(&self) -> (r: bool)
        ensures
            r == self.bit(8),
    {
        (self.0 >> 8) & 1 == 1
    }

    /// Whether recursion is available.
    pub fn ra(&self) -> (r: bool)
        ensures
            r == self.bit(7),
    {
        (self.0 >> 7) & 1 == 1
    }

    /// The response code.
    pub fn rcode(&self) -> (r: u16)
        ensures
            r == self.rcode_spec(),
    {
        self.0 & 0xf
    }

    /// The flag word's two octets.
    pub fn to_bytes(&self) -> (r: Vec<u8>)
        ensures
            r@ == u16_bytes(self.0),
    {
        let mut out: Vec<u8> = Vec::new();
        put_u16(&mut out, self.0);
        assert(out@ =~= u16_bytes(self.0));
        out
    }

    /// Reads a flag word at `pos`; gives it with the position after it.
    pub fn from_bytes(buf: &[u8], pos: usize) -> (r: Result<(Flags, usize), DnsError>)
        ensures
            pos + 2 <= buf@.len() ==> r == Ok::<(Flags, usize), DnsError>(
                (Flags(u16_at(buf@, pos as int)), (pos + 2) as usize),
            ),
            pos + 2 > buf@.len() ==> r == Err::<(Flags, usize), DnsError>(DnsError::FormatError),
    {
        let n = buf.len();
        if pos > n || n - pos < 2 {
            return Err(DnsError::FormatError);
        }
        Ok((Flags(get_u16(buf, pos)), pos + 2))
    }

    /// Replaces the response code and keeps every other bit.
    pub fn set_rcode(&mut self, code: u8)
        requires
            code < 16,
        ensures
            final(self).0 == (old(self).0 & 0xfff0) | (code as u16),
            final(self).rcode_spec() == code as u16,
            final(self).0 & 0xfff0 == old(self).0 & 0xfff0,
    {
        let old_bits = self.0;
        let c = code as u16;
        self.0 = (old_bits & 0xfff0) | c;
        assert(((old_bits & 0xfff0) | c) & 0xf == c && ((old_bits & 0xfff0) | c) & 0xfff0
            == old_bits & 0xfff0) by (bit_vector)
            requires
                c < 16,
        ;
    }
}

/// Turns the flags of a request into those of its response: QR and RA set,
/// AA clear, every other bit as received.
pub fn set_response_flags(flags: Flags) -> (r: Flags)
    ensures
        r.0 == (flags.0 | 0x8080) & 0xfbff,
        r.bit(15),
        r.bit(7),
        !r.bit(10),
        r.0 & 0x7b7f == flags.0 & 0x7b7f,
{
    let f = flags.0;
    let b = (f | 0x8080) & 0xfbff;
    assert((b >> 15) & 1 == 1 && (b >> 7) & 1 == 1 && (b >> 10) & 1 == 0 && b & 0x7b7f == f
        & 0x7b7f) by (bit_vector)
        requires
            b == (f | 0x8080) & 0xfbff,
    ;
    Flags(b)
}

/// The fixed header of a message.
#[derive(Debug, Copy, Clone, PartialEq, Eq, Structural)]
pub struct Header {
    pub id: u16,
    pub flags: Flags,
    pub num_questions: u16,
    pub num_answers: u16,
    pub num_authorities: u16,
    pub num_additionals: u16,
}

/// The twelve octets of a header.
pub open spec fn header_bytes(h: Header) -> Seq<u8> {
    u16_bytes(h.id) + u16_bytes(h.flags.0) + u16_bytes(h.num_questions) + u16_bytes(
        h.num_answers,
    ) + u16_bytes(h.num_authorities) + u16_bytes(h.num_additionals)
}

/// The header whose octets start at `pos`, if twelve octets remain.
pub open spec fn parse_header(s: Seq<u8>, pos: int) -> Option<Header> {
    if 0 <= pos && pos + 12 <= s.len() {
        Some(
            Header {
                id: u16_at(s, pos),
                flags: Flags(u16_at(s, pos + 2)),
                num_questions: u16_at(s, pos + 4),
                num_answers: u16_at(s, pos + 6),
                num_authorities: u16_at(s, pos + 8),
                num_additionals: u16_at(s, pos + 10),
            },
        )
    } else {
        None
    }
}

/// A header is serialised as exactly twelve octets, and reading them back,
/// wherever they stand in a buffer, gives the same header.
pub proof fn lemma_header_round_trip(h: Header, s: Seq<u8>, pos: int)
    requires
        0 <= pos,
        pos + 12 <= s.len(),
        s.subrange(pos, pos + 12) == header_bytes(h),
    ensures
        header_bytes(h).len() == 12,
        parse_header(s, pos) == Some(h),
{
    let b = header_bytes(h);
    assert(b.subrange(0, 2) =~= u16_bytes(h.id));
    assert(b.subrange(2, 4) =~= u16_bytes(h.flags.0));
    assert(b.subrange(4, 6) =~= u16_bytes(h.num_questions));
    assert(b.subrange(6, 8) =~= u16_bytes(h.num_answers));
    assert(b.subrange(8, 10) =~= u16_bytes(h.num_authorities));
    assert(b.subrange(10, 12) =~= u16_bytes(h.num_additionals));
    let w = s.subrange(pos, pos + 12);
    assert(s.subrange(pos, pos + 2) =~= w.subrange(0, 2));
    assert(s.subrange(pos + 2, pos + 4) =~= w.subrange(2, 4));
    assert(s.subrange(pos + 4, pos + 6) =~= w.subrange(4, 6));
    assert(s.subrange(pos + 6, pos + 8) =~= w.subrange(6, 8));
    assert(s.subrange(pos + 8, pos + 10) =~= w.subrange(8, 10));
    assert(s.subrange(pos + 10, pos + 12) =~= w.subrange(10, 12));
    lemma_u16_round_trip(h.id, s, pos);
    lemma_u16_round_trip(h.flags.0, s, pos + 2);
    lemma_u16_round_trip(h.num_questions, s, pos + 4);
    lemma_u16_round_trip(h.num_answers, s, pos + 6);
    lemma_u16_round_trip(h.num_authorities, s, pos + 8);
    lemma_u16_round_trip(h.num_additionals, s, pos + 10);
}

impl Header {
    /// A header with the given id and flags and every section count zero.
    pub fn new(id: u16, flags: Flags) -> (r: Header)
        ensures
            r.id == id,
            r.flags == flags,
            r.num_questions == 0,
            r.num_answers == 0,
            r.num_authorities == 0,
            r.num_additionals == 0,
    {
        Header {
            id,
            flags,
            num_questions: 0,
            num_answers: 0,
            num_authorities: 0,
            num_additionals: 0,
        }
    }

    pub fn to_bytes(&self) -> (r: Vec<u8>)
        ensures
            r@ == header_bytes(*self),
            r@.len() == 12,
    {
        let mut out: Vec<u8> = Vec::new();
        put_u16(&mut out, self.id);
        put_u16(&mut out, self.flags.0);
        put_u16(&mut out, self.num_questions);
        put_u16(&mut out, self.num_answers);
        put_u16(&mut out, self.num_authorities);
        put_u16(&mut out, self.num_additionals);
        assert(out@ =~= header_bytes(*self));
        out
    }

    /// Reads a header at `pos`; gives it with the position after it.
    pub fn from_bytes(buf: &[u8], pos: usize) -> (r: Result<(Header, usize), DnsError>)
        ensures
            parse_header(buf@, pos as int) matches Some(h) ==> r == Ok::<(Header, usize), DnsError>(
                (h, (pos + 12) as usize),
            ),
            parse_header(buf@, pos as int) is None ==> r == Err::<(Header, usize), DnsError>(
                DnsError::FormatError,
            ),
    {
        let n = buf.len();
        if pos > n || n - pos < 12 {
            return Err(DnsError::FormatError);
        }
        let h = Header {
            id: get_u16(buf, pos),
            flags: match Flags::from_bytes(buf, pos + 2) {
                Ok((f, _)) => f,
                Err(e) => {
                    return Err(e);
                },
            },
            num_questions: get_u16(buf, pos + 4),
            num_answers: get_u16(buf, pos + 6),
            num_authorities: get_u16(buf, pos + 8),
            num_additionals: get_u16(buf, pos + 10),
        };
        Ok((h, pos + 12))
    }
}

} // verus!
