//! The typed data carried by a resource record.
use vstd::prelude::*;
use vstd::slice::{slice_subrange, slice_to_vec};

use crate::error::DnsError;
use crate::name::{
    canonical_text, labels_wire, lemma_labels_wire_front, lemma_parse_name_at, parse_name, text_wire,
    Name,
};
use crate::wire::{get_u16, get_u32, put_bytes, put_u16, put_u32, u16_at, u16_bytes, u32_at, u32_bytes};

verus! {

/// The data of a record, by type. Types without a variant of their own are
/// carried as the raw octets of their data.
#[derive(Debug)]
pub enum RecordData {
    A([u8; 4]),
    Ns(Name),
    Cname(Name),
    Ptr(Name),
    Soa {
        mname: Name,
        rname: Name,
        serial: u32,
        refresh: u32,
        retry: u32,
        expire: u32,
        minimum: u32,
    },
    Mx { preference: u16, exchange: Name },
    /// One or more character-strings.
    Txt(Vec<Vec<u8>>),
    Aaaa([u8; 16]),
    Other(Vec<u8>),
}

/// What a `RecordData` holds, with names as their text.
pub enum RecordDataView {
    A(Seq<u8>),
    Ns(Seq<char>),
    Cname(Seq<char>),
    Ptr(Seq<char>),
    Soa {
        mname: Seq<char>,
        rname: Seq<char>,
        serial: u32,
        refresh: u32,
        retry: u32,
        expire: u32,
        minimum: u32,
    },
    Mx { preference: u16, exchange: Seq<char> },
    Txt(Seq<Seq<u8>>),
    Aaaa(Seq<u8>),
    Other(Seq<u8>),
}

impl View for RecordData {
    type V = RecordDataView;

    open spec fn view(&self) -> RecordDataView {
        match self {
            RecordData::A(a) => RecordDataView::A(a@),
            RecordData::Ns(n) => RecordDataView::Ns(n@),
            RecordData::Cname(n) => RecordDataView::Cname(n@),
            RecordData::Ptr(n) => RecordDataView::Ptr(n@),
            RecordData::Soa { mname, rname, serial, refresh, retry, expire, minimum } => {
                RecordDataView::Soa {
                    mname: mname@,
                    rname: rname@,
                    serial: *serial,
                    refresh: *refresh,
                    retry: *retry,
                    expire: *expire,
                    minimum: *minimum,
                }
            },
            RecordData::Mx { preference, exchange } => RecordDataView::Mx {
                preference: *preference,
                exchange: exchange@,
            },
            RecordData::Txt(t) => RecordDataView::Txt(t.deep_view()),
            RecordData::Aaaa(a) => RecordDataView::Aaaa(a@),
            RecordData::Other(b) => RecordDataView::Other(b@),
        }
    }
}

/// Whether the data's variant is the one that the type code `code` takes.
pub open spec fn data_matches_code(code: u16, d: RecordDataView) -> bool {
    match d {
        RecordDataView::A(_) => code == 1,
        RecordDataView::Ns(_) => code == 2,
        RecordDataView::Cname(_) => code == 5,
        RecordDataView::Soa { .. } => code == 6,
        RecordDataView::Ptr(_) => code == 12,
        RecordDataView::Mx { .. } => code == 15,
        RecordDataView::Txt(_) => code == 16,
        RecordDataView::Aaaa(_) => code == 28,
        RecordDataView::Other(_) => !typed_code(code),
    }
}

/// The type codes whose data has a variant of its own.
pub open spec fn typed_code(code: u16) -> bool {
    code == 1 || code == 2 || code == 5 || code == 6 || code == 12 || code == 15 || code == 16
        || code == 28
}

/// The wire form of record data, if every name and string in it fits.
pub open spec fn rdata_wire(d: RecordDataView) -> Option<Seq<u8>> {
    match d {
        RecordDataView::A(a) => if a.len() == 4 { Some(a) } else { None },
        RecordDataView::Ns(t) => text_wire(t),
        RecordDataView::Cname(t) => text_wire(t),
        RecordDataView::Ptr(t) => text_wire(t),
        RecordDataView::Soa { mname, rname, serial, refresh, retry, expire, minimum } => {
            match (text_wire(mname), text_wire(rname)) {
                (Some(m), Some(r)) => Some(
                    m + r + u32_bytes(serial) + u32_bytes(refresh) + u32_bytes(retry) + u32_bytes(
                        expire,
                    ) + u32_bytes(minimum),
                ),
                _ => None,
            }
        },
        RecordDataView::Mx { preference, exchange } => match text_wire(exchange) {
            Some(w) => Some(u16_bytes(preference) + w),
            None => None,
        },
        RecordDataView::Txt(strs) => if strs.len() >= 1 && strings_fit(strs) {
            Some(labels_wire(strs))
        } else {
            None
        },
        RecordDataView::Aaaa(a) => if a.len() == 16 { Some(a) } else { None },
        RecordDataView::Other(b) => Some(b),
    }
}

/// Character-strings that the wire form can carry: at most 255 octets each.
pub open spec fn strings_fit(strs: Seq<Seq<u8>>) -> bool {
    forall|i: int| 0 <= i < strs.len() ==> #[trigger] strs[i].len() <= 255
}

/// The character-strings that fill `s` from `pos` to `end` exactly.
pub open spec fn parse_strings(s: Seq<u8>, pos: int, end: int) -> Option<Seq<Seq<u8>>>
    decreases end - pos,
{
    if pos < 0 || end > s.len() || pos > end {
        None
    } else if pos == end {
        Some(seq![])
    } else {
        let len = s[pos] as int;
        if pos + 1 + len > end {
            None
        } else {
            match parse_strings(s, pos + 1 + len, end) {
                Some(rest) => Some(seq![s.subrange(pos + 1, pos + 1 + len)] + rest),
                None => None,
            }
        }
    }
}

/// The data of type `code` that stands in the `rdlen` octets from `start` of
/// message `s`. Names may point back into the message, not past the data.
pub open spec fn parse_rdata(s: Seq<u8>, start: int, rdlen: int, code: u16) -> Option<RecordDataView> {
    let end = start + rdlen;
    let w = s.subrange(0, end);
    if start < 0 || rdlen < 0 || end > s.len() {
        None
    } else if code == 1 {
        if rdlen >= 4 { Some(RecordDataView::A(s.subrange(start, start + 4))) } else { None }
    } else if code == 2 || code == 5 || code == 12 {
        match parse_name(w, start) {
            Some((t, _)) => Some(
                if code == 2 {
                    RecordDataView::Ns(t)
                } else if code == 5 {
                    RecordDataView::Cname(t)
                } else {
                    RecordDataView::Ptr(t)
                },
            ),
            None => None,
        }
    } else if code == 6 {
        match parse_name(w, start) {
            Some((m, e1)) => match parse_name(w, e1) {
                Some((r, e2)) => if e2 + 20 <= end {
                    Some(
                        RecordDataView::Soa {
                            mname: m,
                            rname: r,
                            serial: u32_at(s, e2),
                            refresh: u32_at(s, e2 + 4),
                            retry: u32_at(s, e2 + 8),
                            expire: u32_at(s, e2 + 12),
                            minimum: u32_at(s, e2 + 16),
                        },
                    )
                } else {
                    None
                },
                None => None,
            },
            None => None,
        }
    } else if code == 15 {
        if rdlen < 2 {
            None
        } else {
            match parse_name(w, start + 2) {
                Some((t, _)) => Some(
                    RecordDataView::Mx { preference: u16_at(s, start), exchange: t },
                ),
                None => None,
            }
        }
    } else if code == 16 {
        match parse_strings(s, start, end) {
            Some(strs) => if strs.len() >= 1 { Some(RecordDataView::Txt(strs)) } else { None },
            None => None,
        }
    } else if code == 28 {
        if rdlen >= 16 { Some(RecordDataView::Aaaa(s.subrange(start, start + 16))) } else { None }
    } else {
        Some(RecordDataView::Other(s.subrange(start, end)))
    }
}


/// Whether every name in the data is canonical.
pub open spec fn data_canonical(d: RecordDataView) -> bool {
    match d {
        RecordDataView::Ns(t) => canonical_text(t),
        RecordDataView::Cname(t) => canonical_text(t),
        RecordDataView::Ptr(t) => canonical_text(t),
        RecordDataView::Soa { mname, rname, .. } => canonical_text(mname) && canonical_text(rname),
        RecordDataView::Mx { exchange, .. } => canonical_text(exchange),
        _ => true,
    }
}

proof fn lemma_parse_strings_plain(s: Seq<u8>, p: int, strs: Seq<Seq<u8>>)
    requires
        0 <= p,
        strings_fit(strs),
        p + labels_wire(strs).len() <= s.len(),
        s.subrange(p, p + labels_wire(strs).len()) == labels_wire(strs),
    ensures
        parse_strings(s, p, p + labels_wire(strs).len()) == Some(strs),
    decreases strs.len(),
{
    let end = p + labels_wire(strs).len();
    if strs.len() > 0 {
        let l = strs[0];
        let rest = strs.drop_first();
        assert(strs =~= seq![l] + rest);
        lemma_labels_wire_front(l, rest);
        let b = l.len() as int;
        assert(l.len() <= 255);
        assert(s[p] == labels_wire(strs)[0]);
        assert(s[p] as int == b);
        let n2 = labels_wire(rest).len() as int;
        let whole = seq![l.len() as u8] + l + labels_wire(rest);
        assert(labels_wire(strs) == whole);
        assert(s.subrange(p + 1 + b, p + 1 + b + n2) =~= s.subrange(p, end).subrange(1 + b, 1 + b + n2));
        assert(whole.subrange(1 + b, 1 + b + n2) =~= labels_wire(rest));
        assert(s.subrange(p + 1, p + 1 + b) =~= s.subrange(p, end).subrange(1, 1 + b));
        assert(whole.subrange(1, 1 + b) =~= l);
        assert(end == p + 1 + b + n2);
        assert(strings_fit(rest)) by {
            assert forall|i: int| 0 <= i < rest.len() implies #[trigger] rest[i].len() <= 255 by {
                assert(rest[i] == strs[i + 1]);
            }
        }
        lemma_parse_strings_plain(s, p + 1 + b, rest);
    } else {
        assert(labels_wire(strs) == Seq::<u8>::empty());
    }
}

proof fn lemma_name_data_round_trip(s: Seq<u8>, start: int, code: u16, t: Seq<char>)
    requires
        code == 2 || code == 5 || code == 12,
        canonical_text(t),
        text_wire(t) is Some,
        0 <= start,
        start + text_wire(t)->Some_0.len() <= s.len(),
        s.subrange(start, start + text_wire(t)->Some_0.len()) == text_wire(t)->Some_0,
    ensures
        parse_rdata(s, start, text_wire(t)->Some_0.len() as int, code) == Some(
            if code == 2 {
                RecordDataView::Ns(t)
            } else if code == 5 {
                RecordDataView::Cname(t)
            } else {
                RecordDataView::Ptr(t)
            },
        ),
{
    let w = text_wire(t)->Some_0;
    let end = start + w.len();
    let win = s.subrange(0, end);
    assert(win.subrange(start, end) =~= w);
    lemma_parse_name_at(win, start, t);
}

#[verifier::rlimit(40)]
proof fn lemma_soa_round_trip(
    s: Seq<u8>,
    start: int,
    mname: Seq<char>,
    rname: Seq<char>,
    serial: u32,
    refresh: u32,
    retry: u32,
    expire: u32,
    minimum: u32,
)
    requires
        canonical_text(mname),
        canonical_text(rname),
        text_wire(mname) is Some,
        text_wire(rname) is Some,
        0 <= start,
        start + text_wire(mname)->Some_0.len() + text_wire(rname)->Some_0.len() + 20 <= s.len(),
        s.subrange(
            start,
            start + text_wire(mname)->Some_0.len() + text_wire(rname)->Some_0.len() + 20,
        ) == text_wire(mname)->Some_0 + text_wire(rname)->Some_0 + u32_bytes(serial) + u32_bytes(
            refresh,
        ) + u32_bytes(retry) + u32_bytes(expire) + u32_bytes(minimum),
    ensures
        parse_rdata(
            s,
            start,
            (text_wire(mname)->Some_0.len() + text_wire(rname)->Some_0.len() + 20) as int,
            6,
        ) == Some(RecordDataView::Soa { mname, rname, serial, refresh, retry, expire, minimum }),
{
    let mw = text_wire(mname)->Some_0;
    let rw = text_wire(rname)->Some_0;
    let w = mw + rw + u32_bytes(serial) + u32_bytes(refresh) + u32_bytes(retry) + u32_bytes(expire)
        + u32_bytes(minimum);
    let m = mw.len() as int;
    let r = rw.len() as int;
    let end = start + m + r + 20;
    let win = s.subrange(0, end);
    let e1 = start + m;
    let e2 = e1 + r;
    assert(win.subrange(start, e1) =~= w.subrange(0, m));
    assert(w.subrange(0, m) =~= mw);
    assert(win.subrange(e1, e2) =~= w.subrange(m, m + r));
    assert(w.subrange(m, m + r) =~= rw);
    lemma_parse_name_at(win, start, mname);
    lemma_parse_name_at(win, e1, rname);
    assert(s.subrange(e2, e2 + 4) =~= w.subrange(m + r, m + r + 4));
    assert(w.subrange(m + r, m + r + 4) =~= u32_bytes(serial));
    assert(s.subrange(e2 + 4, e2 + 8) =~= w.subrange(m + r + 4, m + r + 8));
    assert(w.subrange(m + r + 4, m + r + 8) =~= u32_bytes(refresh));
    assert(s.subrange(e2 + 8, e2 + 12) =~= w.subrange(m + r + 8, m + r + 12));
    assert(w.subrange(m + r + 8, m + r + 12) =~= u32_bytes(retry));
    assert(s.subrange(e2 + 12, e2 + 16) =~= w.subrange(m + r + 12, m + r + 16));
    assert(w.subrange(m + r + 12, m + r + 16) =~= u32_bytes(expire));
    assert(s.subrange(e2 + 16, e2 + 20) =~= w.subrange(m + r + 16, m + r + 20));
    assert(w.subrange(m + r + 16, m + r + 20) =~= u32_bytes(minimum));
    crate::wire::lemma_u32_round_trip(serial, s, e2);
    crate::wire::lemma_u32_round_trip(refresh, s, e2 + 4);
    crate::wire::lemma_u32_round_trip(retry, s, e2 + 8);
    crate::wire::lemma_u32_round_trip(expire, s, e2 + 12);
    crate::wire::lemma_u32_round_trip(minimum, s, e2 + 16);
}

proof fn lemma_mx_round_trip(s: Seq<u8>, start: int, preference: u16, exchange: Seq<char>)
    requires
        canonical_text(exchange),
        text_wire(exchange) is Some,
        0 <= start,
        start + 2 + text_wire(exchange)->Some_0.len() <= s.len(),
        s.subrange(start, start + 2 + text_wire(exchange)->Some_0.len()) == u16_bytes(preference)
            + text_wire(exchange)->Some_0,
    ensures
        parse_rdata(s, start, (2 + text_wire(exchange)->Some_0.len()) as int, 15) == Some(
            RecordDataView::Mx { preference, exchange },
        ),
{
    let xw = text_wire(exchange)->Some_0;
    let w = u16_bytes(preference) + xw;
    let end = start + 2 + xw.len();
    let win = s.subrange(0, end);
    assert(win.subrange(start + 2, end) =~= w.subrange(2, w.len() as int));
    assert(w.subrange(2, w.len() as int) =~= xw);
    lemma_parse_name_at(win, start + 2, exchange);
    assert(s.subrange(start, start + 2) =~= w.subrange(0, 2));
    assert(w.subrange(0, 2) =~= u16_bytes(preference));
    crate::wire::lemma_u16_round_trip(preference, s, start);
}

/// Data that suits its type code and whose names are canonical is read back
/// from its wire form, standing anywhere in a buffer, as itself.
pub proof fn lemma_rdata_round_trip(s: Seq<u8>, start: int, code: u16, d: RecordDataView)
    requires
        data_matches_code(code, d),
        data_canonical(d),
        rdata_wire(d) is Some,
        0 <= start,
        start + rdata_wire(d)->Some_0.len() <= s.len(),
        s.subrange(start, start + rdata_wire(d)->Some_0.len()) == rdata_wire(d)->Some_0,
    ensures
        parse_rdata(s, start, rdata_wire(d)->Some_0.len() as int, code) == Some(d),
{
    match d {
        RecordDataView::A(a) => {
            assert(s.subrange(start, start + 4) =~= a);
        },
        RecordDataView::Aaaa(a) => {
            assert(s.subrange(start, start + 16) =~= a);
        },
        RecordDataView::Ns(t) => {
            lemma_name_data_round_trip(s, start, code, t);
        },
        RecordDataView::Cname(t) => {
            lemma_name_data_round_trip(s, start, code, t);
        },
        RecordDataView::Ptr(t) => {
            lemma_name_data_round_trip(s, start, code, t);
        },
        RecordDataView::Soa { mname, rname, serial, refresh, retry, expire, minimum } => {
            lemma_soa_round_trip(s, start, mname, rname, serial, refresh, retry, expire, minimum);
        },
        RecordDataView::Mx { preference, exchange } => {
            lemma_mx_round_trip(s, start, preference, exchange);
        },
        RecordDataView::Txt(strs) => {
            lemma_parse_strings_plain(s, start, strs);
        },
        RecordDataView::Other(b) => {
            assert(s.subrange(start, start + b.len()) =~= b);
        },
    }
}

/// The type codes whose data holds names.
pub open spec fn name_code(code: u16) -> bool {
    code == 2 || code == 5 || code == 6 || code == 12 || code == 15
}

proof fn lemma_strings_local(s: Seq<u8>, pos: int, end: int, s2: Seq<u8>, pos2: int)
    requires
        0 <= pos <= end <= s.len(),
        0 <= pos2,
        pos2 + (end - pos) <= s2.len(),
        s.subrange(pos, end) == s2.subrange(pos2, pos2 + (end - pos)),
    ensures
        parse_strings(s, pos, end) == parse_strings(s2, pos2, pos2 + (end - pos)),
    decreases end - pos,
{
    let end2 = pos2 + (end - pos);
    if pos < end {
        assert(s[pos] == s.subrange(pos, end)[0]);
        assert(s2[pos2] == s2.subrange(pos2, end2)[0]);
        let len = s[pos] as int;
        if pos + 1 + len <= end {
            assert(s.subrange(pos + 1 + len, end) =~= s.subrange(pos, end).subrange(1 + len, end - pos));
            assert(s2.subrange(pos2 + 1 + len, end2) =~= s2.subrange(pos2, end2).subrange(1 + len, end - pos));
            assert(s.subrange(pos + 1, pos + 1 + len) =~= s.subrange(pos, end).subrange(1, 1 + len));
            assert(s2.subrange(pos2 + 1, pos2 + 1 + len) =~= s2.subrange(pos2, end2).subrange(1, 1 + len));
            lemma_strings_local(s, pos + 1 + len, end, s2, pos2 + 1 + len);
        }
    }
}

/// Data without names reads the same wherever its octets stand.
pub proof fn lemma_rdata_local(s: Seq<u8>, start: int, rdlen: int, code: u16, s2: Seq<u8>, start2: int)
    requires
        !name_code(code),
        0 <= start,
        0 <= start2,
        0 <= rdlen,
        start + rdlen <= s.len(),
        start2 + rdlen <= s2.len(),
        s.subrange(start, start + rdlen) == s2.subrange(start2, start2 + rdlen),
    ensures
        parse_rdata(s, start, rdlen, code) == parse_rdata(s2, start2, rdlen, code),
{
    let w1 = s.subrange(start, start + rdlen);
    if code == 1 && rdlen >= 4 {
        assert(s.subrange(start, start + 4) =~= w1.subrange(0, 4));
        assert(s2.subrange(start2, start2 + 4) =~= w1.subrange(0, 4));
    } else if code == 28 && rdlen >= 16 {
        assert(s.subrange(start, start + 16) =~= w1.subrange(0, 16));
        assert(s2.subrange(start2, start2 + 16) =~= w1.subrange(0, 16));
    } else if code == 16 {
        lemma_strings_local(s, start, start + rdlen, s2, start2);
    }
}

/// Whether two octet strings are equal.
pub fn bytes_equal(a: &[u8], b: &[u8]) -> (r: bool)
    ensures
        r == (a@ == b@),
{
    if a.len() != b.len() {
        return false;
    }
    let mut i: usize = 0;
    while i < a.len()
        invariant
            a@.len() == b@.len(),
            i <= a@.len(),
            forall|k: int| 0 <= k < i ==> a@[k] == b@[k],
        decreases a@.len() - i,
    {
        if a[i] != b[i] {
            return false;
        }
        i = i + 1;
    }
    assert(a@ =~= b@);
    true
}

/// The deep view of a list of octet strings is the view of each string.
pub proof fn lemma_strings_view(v: Vec<Vec<u8>>)
    ensures
        v.deep_view().len() == v@.len(),
        forall|i: int| 0 <= i < v@.len() ==> #[trigger] v.deep_view()[i] == v@[i]@,
{
    assert forall|i: int| 0 <= i < v@.len() implies #[trigger] v.deep_view()[i] == v@[i]@ by {
        assert(v@[i].deep_view() =~= v@[i]@);
    }
}

fn strings_equal(a: &Vec<Vec<u8>>, b: &Vec<Vec<u8>>) -> (r: bool)
    ensures
        r == (a.deep_view() == b.deep_view()),
{
    proof {
        lemma_strings_view(*a);
        lemma_strings_view(*b);
    }
    proof {
        lemma_strings_view(*a);
        lemma_strings_view(*b);
    }
    if a.len() != b.len() {
        return false;
    }
    let mut i: usize = 0;
    while i < a.len()
        invariant
            a@.len() == b@.len(),
            forall|k: int| 0 <= k < a@.len() ==> #[trigger] a.deep_view()[k] == a@[k]@,
            forall|k: int| 0 <= k < b@.len() ==> #[trigger] b.deep_view()[k] == b@[k]@,
            a.deep_view().len() == a@.len(),
            b.deep_view().len() == b@.len(),
            forall|k: int| 0 <= k < a@.len() ==> #[trigger] a.deep_view()[k] == a@[k]@,
            forall|k: int| 0 <= k < b@.len() ==> #[trigger] b.deep_view()[k] == b@[k]@,
            a.deep_view().len() == a@.len(),
            b.deep_view().len() == b@.len(),
            i <= a@.len(),
            forall|k: int| 0 <= k < i ==> a.deep_view()[k] == b.deep_view()[k],
        decreases a@.len() - i,
    {
        if !bytes_equal(a[i].as_slice(), b[i].as_slice()) {
            assert(a.deep_view()[i as int] != b.deep_view()[i as int]);
            return false;
        }
        i = i + 1;
    }
    assert(a.deep_view() =~= b.deep_view());
    true
}

fn copy_strings(a: &Vec<Vec<u8>>) -> (r: Vec<Vec<u8>>)
    ensures
        r.deep_view() == a.deep_view(),
{
    let mut out: Vec<Vec<u8>> = Vec::new();
    let mut i: usize = 0;
    while i < a.len()
        invariant
            i <= a@.len(),
            out@.len() == i,
            forall|k: int| 0 <= k < i ==> #[trigger] out@[k]@ == a@[k]@,
        decreases a@.len() - i,
    {
        let v = slice_to_vec(a[i].as_slice());
        out.push(v);
        i = i + 1;
    }
    proof {
        lemma_strings_view(out);
        lemma_strings_view(*a);
    }
    assert(out.deep_view() =~= a.deep_view());
    out
}

impl Clone for RecordData {
    fn clone(&self) -> (r: Self)
        ensures
            r@ == self@,
    {
        match self {
            RecordData::A(a) => RecordData::A(*a),
            RecordData::Ns(n) => RecordData::Ns(n.clone()),
            RecordData::Cname(n) => RecordData::Cname(n.clone()),
            RecordData::Ptr(n) => RecordData::Ptr(n.clone()),
            RecordData::Soa { mname, rname, serial, refresh, retry, expire, minimum } => {
                RecordData::Soa {
                    mname: mname.clone(),
                    rname: rname.clone(),
                    serial: *serial,
                    refresh: *refresh,
                    retry: *retry,
                    expire: *expire,
                    minimum: *minimum,
                }
            },
            RecordData::Mx { preference, exchange } => RecordData::Mx {
                preference: *preference,
                exchange: exchange.clone(),
            },
            RecordData::Txt(t) => RecordData::Txt(copy_strings(t)),
            RecordData::Aaaa(a) => RecordData::Aaaa(*a),
            RecordData::Other(b) => RecordData::Other(slice_to_vec(b.as_slice())),
        }
    }
}

impl RecordData {
    /// Whether two record data hold the same values.
    pub fn same_as(&self, other: &RecordData) -> (r: bool)
        ensures
            r == (self@ == other@),
    {
        match (self, other) {
            (RecordData::A(a), RecordData::A(b)) => bytes_equal(a.as_slice(), b.as_slice()),
            (RecordData::Ns(a), RecordData::Ns(b)) => a == b,
            (RecordData::Cname(a), RecordData::Cname(b)) => a == b,
            (RecordData::Ptr(a), RecordData::Ptr(b)) => a == b,
            (
                RecordData::Soa { mname, rname, serial, refresh, retry, expire, minimum },
                RecordData::Soa {
                    mname: m2,
                    rname: r2,
                    serial: s2,
                    refresh: f2,
                    retry: t2,
                    expire: e2,
                    minimum: n2,
                },
            ) => mname == m2 && rname == r2 && *serial == *s2 && *refresh == *f2 && *retry == *t2
                && *expire == *e2 && *minimum == *n2,
            (
                RecordData::Mx { preference, exchange },
                RecordData::Mx { preference: other_pref, exchange: other_exchange },
            ) => *preference == *other_pref && exchange == other_exchange,
            (RecordData::Txt(a), RecordData::Txt(b)) => strings_equal(a, b),
            (RecordData::Aaaa(a), RecordData::Aaaa(b)) => bytes_equal(a.as_slice(), b.as_slice()),
            (RecordData::Other(a), RecordData::Other(b)) => bytes_equal(a.as_slice(), b.as_slice()),
            _ => false,
        }
    }
}

/// Writes character-strings, each as its length octet and its octets; fails
/// on an empty list or a string of more than 255 octets.
fn encode_strings(strs: &Vec<Vec<u8>>) -> (r: Result<Vec<u8>, DnsError>)
    ensures
        r is Ok <==> strs.deep_view().len() >= 1 && strings_fit(strs.deep_view()),
        r matches Ok(v) ==> v@ == labels_wire(strs.deep_view()),
        r matches Err(e) ==> e == DnsError::FormatError,
{
    let ghost ls = strs.deep_view();
    proof {
        lemma_strings_view(*strs);
    }
    if strs.len() == 0 {
        return Err(DnsError::FormatError);
    }
    let mut out: Vec<u8> = Vec::new();
    let mut k: usize = 0;
    while k < strs.len()
        invariant
            ls == strs.deep_view(),
            ls.len() == strs@.len(),
            forall|i: int| 0 <= i < strs@.len() ==> #[trigger] ls[i] == strs@[i]@,
            k <= ls.len(),
            out@ == labels_wire(ls.subrange(0, k as int)),
            forall|i: int| 0 <= i < k ==> #[trigger] ls[i].len() <= 255,
        decreases ls.len() - k,
    {
        let item = &strs[k];
        let len = item.len();
        if len > 255 {
            assert(ls[k as int].len() > 255);
            return Err(DnsError::FormatError);
        }
        out.push(len as u8);
        put_bytes(&mut out, item.as_slice());
        proof {
            assert(ls.subrange(0, k + 1).drop_last() =~= ls.subrange(0, k as int));
        }
        k = k + 1;
    }
    assert(ls.subrange(0, k as int) =~= ls);
    Ok(out)
}

impl RecordData {
    /// The wire form of the data.
    pub fn to_bytes(&self) -> (r: Result<Vec<u8>, DnsError>)
        ensures
            rdata_wire(self@) matches Some(w) ==> (r matches Ok(v) && v@ == w),
            rdata_wire(self@) is None ==> (r matches Err(e) && e == DnsError::FormatError),
    {
        match self {
            RecordData::A(a) => Ok(slice_to_vec(a.as_slice())),
            RecordData::Ns(n) => n.to_bytes(),
            RecordData::Cname(n) => n.to_bytes(),
            RecordData::Ptr(n) => n.to_bytes(),
            RecordData::Soa { mname, rname, serial, refresh, retry, expire, minimum } => {
                let mut out = match mname.to_bytes() {
                    Ok(v) => v,
                    Err(e) => {
                        return Err(e);
                    },
                };
                let r = match rname.to_bytes() {
                    Ok(v) => v,
                    Err(e) => {
                        return Err(e);
                    },
                };
                put_bytes(&mut out, r.as_slice());
                put_u32(&mut out, *serial);
                put_u32(&mut out, *refresh);
                put_u32(&mut out, *retry);
                put_u32(&mut out, *expire);
                put_u32(&mut out, *minimum);
                Ok(out)
            },
            RecordData::Mx { preference, exchange } => {
                let w = match exchange.to_bytes() {
                    Ok(v) => v,
                    Err(e) => {
                        return Err(e);
                    },
                };
                let mut out: Vec<u8> = Vec::new();
                put_u16(&mut out, *preference);
                put_bytes(&mut out, w.as_slice());
                assert(out@ =~= u16_bytes(*preference) + w@);
                Ok(out)
            },
            RecordData::Txt(strs) => encode_strings(strs),
            RecordData::Aaaa(a) => Ok(slice_to_vec(a.as_slice())),
            RecordData::Other(b) => Ok(slice_to_vec(b.as_slice())),
        }
    }

    /// Reads the data of type `code` from the `rdlen` octets at `start`.
    pub fn from_bytes(buf: &[u8], start: usize, rdlen: usize, code: u16) -> (r: Result<RecordData, DnsError>)
        requires
            start + rdlen <= buf@.len(),
        ensures
            parse_rdata(buf@, start as int, rdlen as int, code) matches Some(d) ==> (r matches Ok(x)
                && x@ == d),
            parse_rdata(buf@, start as int, rdlen as int, code) is None ==> (r matches Err(e) && e
                == DnsError::FormatError),
    {
        let n = buf.len();
        let end = start + rdlen;
        let w = slice_subrange(buf, 0, end);
        if code == 1 {
            if rdlen < 4 {
                return Err(DnsError::FormatError);
            }
            let a: [u8; 4] = [buf[start], buf[start + 1], buf[start + 2], buf[start + 3]];
            assert(a@ =~= buf@.subrange(start as int, start + 4));
            Ok(RecordData::A(a))
        } else if code == 2 || code == 5 || code == 12 {
            match Name::from_bytes(w, start) {
                Ok((n, _)) => Ok(
                    if code == 2 {
                        RecordData::Ns(n)
                    } else if code == 5 {
                        RecordData::Cname(n)
                    } else {
                        RecordData::Ptr(n)
                    },
                ),
                Err(e) => Err(e),
            }
        } else if code == 6 {
            let (mname, e1) = match Name::from_bytes(w, start) {
                Ok(x) => x,
                Err(e) => {
                    return Err(e);
                },
            };
            let (rname, e2) = match Name::from_bytes(w, e1) {
                Ok(x) => x,
                Err(e) => {
                    return Err(e);
                },
            };
            if e2 > end || end - e2 < 20 {
                return Err(DnsError::FormatError);
            }
            Ok(
                RecordData::Soa {
                    mname,
                    rname,
                    serial: get_u32(buf, e2),
                    refresh: get_u32(buf, e2 + 4),
                    retry: get_u32(buf, e2 + 8),
                    expire: get_u32(buf, e2 + 12),
                    minimum: get_u32(buf, e2 + 16),
                },
            )
        } else if code == 15 {
            if rdlen < 2 {
                return Err(DnsError::FormatError);
            }
            let preference = get_u16(buf, start);
            match Name::from_bytes(w, start + 2) {
                Ok((exchange, _)) => Ok(RecordData::Mx { preference, exchange }),
                Err(e) => Err(e),
            }
        } else if code == 16 {
            let mut strs: Vec<Vec<u8>> = Vec::new();
            let mut pos: usize = start;
            let ghost s = buf@;
            while pos < end
                invariant
                    s == buf@,
                    end <= s.len(),
                    end == start + rdlen,
                    code == 16,
                    start <= pos <= end,
                    parse_strings(s, start as int, end as int) == match parse_strings(s, pos as int, end as int) {
                        Some(rest) => Some(strs.deep_view() + rest),
                        None => None::<Seq<Seq<u8>>>,
                    },
                    pos > start ==> strs.deep_view().len() >= 1,
                decreases end - pos,
            {
                let len = buf[pos] as usize;
                if len >= end - pos {
                    assert(parse_strings(s, pos as int, end as int) is None);
                    assert(parse_strings(s, start as int, end as int) is None);
                    assert(end == start + rdlen);
                    assert(parse_rdata(s, start as int, rdlen as int, code) is None);
                    return Err(DnsError::FormatError);
                }
                let item = slice_to_vec(slice_subrange(buf, pos + 1, pos + 1 + len));
                let ghost before = strs.deep_view();
                strs.push(item);
                proof {
                    lemma_strings_view(strs);
                    assert(strs.deep_view() =~= before.push(item@));
                    match parse_strings(s, pos + 1 + len, end as int) {
                        Some(rest) => {
                            assert(before + (seq![item@] + rest) =~= strs.deep_view() + rest);
                        },
                        None => {},
                    }
                }
                pos = pos + 1 + len;
            }
            assert(strs.deep_view() + seq![] =~= strs.deep_view());
            if strs.len() == 0 {
                proof {
                    lemma_strings_view(strs);
                }
                return Err(DnsError::FormatError);
            }
            Ok(RecordData::Txt(strs))
        } else if code == 28 {
            if rdlen < 16 {
                return Err(DnsError::FormatError);
            }
            let a: [u8; 16] = [
                buf[start],
                buf[start + 1],
                buf[start + 2],
                buf[start + 3],
                buf[start + 4],
                buf[start + 5],
                buf[start + 6],
                buf[start + 7],
                buf[start + 8],
                buf[start + 9],
                buf[start + 10],
                buf[start + 11],
                buf[start + 12],
                buf[start + 13],
                buf[start + 14],
                buf[start + 15],
            ];
            assert(a@ =~= buf@.subrange(start as int, start + 16));
            Ok(RecordData::Aaaa(a))
        } else {
            Ok(RecordData::Other(slice_to_vec(slice_subrange(buf, start, end))))
        }
    }
}

} // verus!
