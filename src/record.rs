//! Resource records: an owner name, type, class, time to live and data.
use vstd::prelude::*;

use crate::error::DnsError;
use crate::name::{
    canonical_text, lemma_compressed_name, lemma_parse_name_at, name_wire, parse_name, text_wire,
    wire_labels, Name,
};
use crate::rdata::{
    data_canonical, data_matches_code, lemma_rdata_local, lemma_rdata_round_trip, name_code,
    parse_rdata, rdata_wire, RecordData,
    RecordDataView,
};
use crate::wire::{get_u16, get_u32, put_bytes, put_u16, put_u32, u16_at, u16_bytes, u32_at, u32_bytes};

verus! {

/// A resource record. Two records are the same record when all but their
/// time to live agree: `==` ignores `ttl`.
#[derive(Debug)]
pub struct ResourceRecord {
    pub name: Name,
    pub type_: u16,
    pub class: u16,
    pub ttl: u32,
    pub data: RecordData,
}

/// What a record holds: owner text, type code, class, time to live, data.
pub type RecordView = (Seq<char>, u16, u16, u32, RecordDataView);

/// A record with its time to live left out.
pub open spec fn record_key(r: RecordView) -> (Seq<char>, u16, u16, RecordDataView) {
    (r.0, r.1, r.2, r.4)
}

impl View for ResourceRecord {
    type V = RecordView;

    open spec fn view(&self) -> RecordView {
        (self.name@, self.type_, self.class, self.ttl, self.data@)
    }
}

/// The wire form of a record, if its name and data fit.
pub open spec fn record_wire(r: RecordView) -> Option<Seq<u8>> {
    match (text_wire(r.0), rdata_wire(r.4)) {
        (Some(n), Some(d)) => if d.len() <= 0xffff {
            Some(
                n + u16_bytes(r.1) + u16_bytes(r.2) + u32_bytes(r.3) + u16_bytes(d.len() as u16)
                    + d,
            )
        } else {
            None
        },
        _ => None,
    }
}

/// The record at `pos` of `s` and the position after it: the position after
/// its data, whatever the data's own parser read.
pub open spec fn parse_record(s: Seq<u8>, pos: int) -> Option<(RecordView, int)> {
    match parse_name(s, pos) {
        Some((t, e)) => if e + 10 <= s.len() {
            let rdlen = u16_at(s, e + 8) as int;
            if e + 10 + rdlen <= s.len() {
                match parse_rdata(s, e + 10, rdlen, u16_at(s, e)) {
                    Some(d) => Some(
                        ((t, u16_at(s, e), u16_at(s, e + 2), u32_at(s, e + 4), d), e + 10 + rdlen),
                    ),
                    None => None,
                }
            } else {
                None
            }
        } else {
            None
        },
        None => None,
    }
}

impl Clone for ResourceRecord {
    fn clone(&self) -> (r: Self)
        ensures
            r@ == self@,
    {
        ResourceRecord {
            name: self.name.clone(),
            type_: self.type_,
            class: self.class,
            ttl: self.ttl,
            data: self.data.clone(),
        }
    }
}

impl PartialEq for ResourceRecord {
    fn eq(&self, other: &ResourceRecord) -> (r: bool)
        ensures
            r == (record_key(self@) == record_key(other@)),
    {
        self.name == other.name && self.type_ == other.type_ && self.class == other.class
            && self.data.same_as(&other.data)
    }
}

impl vstd::std_specs::cmp::PartialEqSpecImpl for ResourceRecord {
    open spec fn obeys_eq_spec() -> bool {
        true
    }

    open spec fn eq_spec(&self, other: &ResourceRecord) -> bool {
        record_key(self@) == record_key(other@)
    }
}

impl Eq for ResourceRecord {

}

impl ResourceRecord {
    /// The wire form of the record; the data length is that of the data written.
    pub fn to_bytes(&self) -> (r: Result<Vec<u8>, DnsError>)
        ensures
            record_wire(self@) matches Some(w) ==> (r matches Ok(v) && v@ == w),
            record_wire(self@) is None ==> (r matches Err(e) && e == DnsError::FormatError),
    {
        let mut out = match self.name.to_bytes() {
            Ok(v) => v,
            Err(e) => {
                return Err(e);
            },
        };
        let data = match self.data.to_bytes() {
            Ok(v) => v,
            Err(e) => {
                return Err(e);
            },
        };
        if data.len() > 0xffff {
            return Err(DnsError::FormatError);
        }
        put_u16(&mut out, self.type_);
        put_u16(&mut out, self.class);
        put_u32(&mut out, self.ttl);
        put_u16(&mut out, data.len() as u16);
        put_bytes(&mut out, data.as_slice());
        Ok(out)
    }

    /// Reads the record at `pos`; gives it with the position after its data.
    pub fn from_bytes(buf: &[u8], pos: usize) -> (r: Result<(ResourceRecord, usize), DnsError>)
        ensures
            parse_record(buf@, pos as int) matches Some((x, e)) ==> (r matches Ok((rr, end)) && rr@
                == x && end == e),
            parse_record(buf@, pos as int) is None ==> (r matches Err(e) && e
                == DnsError::FormatError),
    {
        let n = buf.len();
        let (name, e) = match Name::from_bytes(buf, pos) {
            Ok(x) => x,
            Err(err) => {
                return Err(err);
            },
        };
        if e > n || n - e < 10 {
            return Err(DnsError::FormatError);
        }
        let type_ = get_u16(buf, e);
        let class = get_u16(buf, e + 2);
        let ttl = get_u32(buf, e + 4);
        let rdlen = get_u16(buf, e + 8) as usize;
        let start = e + 10;
        if rdlen > n - start {
            return Err(DnsError::FormatError);
        }
        let data = match RecordData::from_bytes(buf, start, rdlen, type_) {
            Ok(d) => d,
            Err(err) => {
                return Err(err);
            },
        };
        Ok((ResourceRecord { name, type_, class, ttl, data }, start + rdlen))
    }
}

/// A record whose owner and data names are canonical and whose data suits
/// its type is read back from its wire form as itself: owner, type, class,
/// data, and time to live too.
#[verifier::rlimit(40)]
pub proof fn lemma_record_round_trip(r: RecordView)
    requires
        canonical_text(r.0),
        data_canonical(r.4),
        data_matches_code(r.1, r.4),
        record_wire(r) is Some,
    ensures
        parse_record(record_wire(r)->Some_0, 0) == Some((r, record_wire(r)->Some_0.len() as int)),
{
    let nw = text_wire(r.0)->Some_0;
    let d = rdata_wire(r.4)->Some_0;
    let n = nw.len() as int;
    let dl = d.len() as int;
    let w = nw + u16_bytes(r.1) + u16_bytes(r.2) + u32_bytes(r.3) + u16_bytes(d.len() as u16) + d;
    assert(record_wire(r) == Some(w));
    assert(w.len() == n + 10 + dl);
    assert(w.subrange(0, n) =~= nw);
    lemma_parse_name_at(w, 0, r.0);
    assert(w.subrange(n, n + 2) =~= u16_bytes(r.1));
    assert(w.subrange(n + 2, n + 4) =~= u16_bytes(r.2));
    assert(w.subrange(n + 4, n + 8) =~= u32_bytes(r.3));
    assert(w.subrange(n + 8, n + 10) =~= u16_bytes(d.len() as u16));
    assert(w.subrange(n + 10, n + 10 + dl) =~= d);
    crate::wire::lemma_u16_round_trip(r.1, w, n);
    crate::wire::lemma_u16_round_trip(r.2, w, n + 2);
    crate::wire::lemma_u32_round_trip(r.3, w, n + 4);
    crate::wire::lemma_u16_round_trip(d.len() as u16, w, n + 8);
    lemma_rdata_round_trip(w, n + 10, r.1, r.4);
    assert(parse_name(w, 0) == Some((r.0, n)));
    assert(u16_at(w, n + 8) as int == dl);
    assert(parse_rdata(w, n + 10, dl, u16_at(w, n)) == Some(r.4));
}

/// A record whose owner is written with compression pointers reads as the
/// same record once that owner is written out in full, the rest of the record
/// unchanged, wherever it then stands (for data without names, which could
/// themselves point elsewhere).
pub proof fn lemma_compressed_owner(s: Seq<u8>, p: int, s2: Seq<u8>, pos2: int)
    requires
        parse_record(s, p) is Some,
        !name_code(parse_record(s, p)->Some_0.0.1),
        0 <= pos2,
        pos2 + name_wire(wire_labels(s, p, 0)->Some_0.0).len() + (parse_record(s, p)->Some_0.1
            - wire_labels(s, p, 0)->Some_0.1) <= s2.len(),
        s2.subrange(pos2, pos2 + name_wire(wire_labels(s, p, 0)->Some_0.0).len()) == name_wire(
            wire_labels(s, p, 0)->Some_0.0,
        ),
        s2.subrange(
            pos2 + name_wire(wire_labels(s, p, 0)->Some_0.0).len(),
            pos2 + name_wire(wire_labels(s, p, 0)->Some_0.0).len() + (parse_record(s, p)->Some_0.1
                - wire_labels(s, p, 0)->Some_0.1),
        ) == s.subrange(wire_labels(s, p, 0)->Some_0.1, parse_record(s, p)->Some_0.1),
    ensures
        parse_record(s2, pos2) == Some(
            (
                parse_record(s, p)->Some_0.0,
                pos2 + name_wire(wire_labels(s, p, 0)->Some_0.0).len() + (parse_record(s, p)->Some_0.1
                    - wire_labels(s, p, 0)->Some_0.1),
            ),
        ),
{
    let ls = wire_labels(s, p, 0)->Some_0.0;
    let ne = wire_labels(s, p, 0)->Some_0.1;
    let e = parse_record(s, p)->Some_0.1;
    let nw = name_wire(ls);
    let e2 = pos2 + nw.len();
    let k = e - ne;
    lemma_compressed_name(s, p, s2, pos2);
    crate::name::lemma_wire_labels_bounds(s, p, 0);
    assert(parse_name(s, p)->Some_0.1 == ne);
    let rdlen = u16_at(s, ne + 8) as int;
    assert(parse_name(s, p) is Some);
    assert(ne + 10 <= s.len());
    assert(e == ne + 10 + rdlen);
    assert(e <= s.len());
    assert(0 <= ne);
    let tail = s.subrange(ne, e);
    assert(s2.subrange(e2, e2 + k) == tail);
    assert forall|i: int| 0 <= i < k implies #[trigger] s2[e2 + i] == s[ne + i] by {
        assert(s2[e2 + i] == s2.subrange(e2, e2 + k)[i]);
        assert(s[ne + i] == tail[i]);
    }
    assert(s2[e2 + 0] == s[ne + 0] && s2[e2 + 1] == s[ne + 1] && s2[e2 + 2] == s[ne + 2]
        && s2[e2 + 3] == s[ne + 3] && s2[e2 + 4] == s[ne + 4] && s2[e2 + 5] == s[ne + 5]
        && s2[e2 + 6] == s[ne + 6] && s2[e2 + 7] == s[ne + 7] && s2[e2 + 8] == s[ne + 8]
        && s2[e2 + 9] == s[ne + 9]);
    assert(u16_at(s2, e2) == u16_at(s, ne));
    assert(u16_at(s2, e2 + 2) == u16_at(s, ne + 2));
    assert(u16_at(s2, e2 + 4) == u16_at(s, ne + 4));
    assert(u16_at(s2, e2 + 6) == u16_at(s, ne + 6));
    assert(u16_at(s2, e2 + 8) == u16_at(s, ne + 8));
    assert(s.subrange(ne + 10, ne + 10 + rdlen) =~= s2.subrange(e2 + 10, e2 + 10 + rdlen)) by {
        assert forall|i: int| 0 <= i < rdlen implies #[trigger] s.subrange(ne + 10, ne + 10 + rdlen)[i]
            == s2.subrange(e2 + 10, e2 + 10 + rdlen)[i] by {
            assert(s2[e2 + (10 + i)] == s[ne + (10 + i)]);
        }
    }
    lemma_rdata_local(s, ne + 10, rdlen, u16_at(s, ne), s2, e2 + 10);
}

/// A record of a type without a variant of its own is written back as it was
/// read: after its owner, the type, class, time to live, data length and data
/// octets are the very octets it was read from.
pub proof fn lemma_unknown_record_written_back(s: Seq<u8>, p: int)
    requires
        parse_record(s, p) is Some,
        !crate::rdata::typed_code(parse_record(s, p)->Some_0.0.1),
    ensures
        rdata_wire(parse_record(s, p)->Some_0.0.4) == Some(
            s.subrange(parse_name(s, p)->Some_0.1 + 10, parse_record(s, p)->Some_0.1),
        ),
        text_wire(parse_record(s, p)->Some_0.0.0) matches Some(nw) ==> record_wire(
            parse_record(s, p)->Some_0.0,
        ) == Some(nw + s.subrange(parse_name(s, p)->Some_0.1, parse_record(s, p)->Some_0.1)),
{
    let r = parse_record(s, p)->Some_0.0;
    let e = parse_record(s, p)->Some_0.1;
    let ne = parse_name(s, p)->Some_0.1;
    crate::name::lemma_wire_labels_bounds(s, p, 0);
    let rdlen = u16_at(s, ne + 8) as int;
    assert(e == ne + 10 + rdlen);
    let d = s.subrange(ne + 10, e);
    assert(r.4 == RecordDataView::Other(d));
    assert(d.len() == rdlen);
    crate::wire::lemma_u16_bytes_of_at(s, ne);
    crate::wire::lemma_u16_bytes_of_at(s, ne + 2);
    crate::wire::lemma_u32_bytes_of_at(s, ne + 4);
    crate::wire::lemma_u16_bytes_of_at(s, ne + 8);
    assert(d.len() as u16 == u16_at(s, ne + 8));
    match text_wire(r.0) {
        Some(nw) => {
            assert(u16_bytes(r.1) + u16_bytes(r.2) + u32_bytes(r.3) + u16_bytes(d.len() as u16) + d
                =~= s.subrange(ne, e));
            assert(nw + u16_bytes(r.1) + u16_bytes(r.2) + u32_bytes(r.3) + u16_bytes(d.len() as u16)
                + d =~= nw + s.subrange(ne, e));
        },
        None => {},
    }
}

} // verus!
