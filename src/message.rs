//! Whole messages: a header and the question, answer, authority and
//! additional sections.
use vstd::prelude::*;

use crate::error::DnsError;
use crate::header::{header_bytes, parse_header, Header};
use crate::question::{parse_question, question_wire, Question};
use crate::record::{parse_record, record_wire, RecordView, ResourceRecord};
use crate::record_type::RecordType;

verus! {

/// The items of a section written one after another, if each can be written.
pub open spec fn concat_wire<T>(xs: Seq<T>, f: spec_fn(T) -> Option<Seq<u8>>) -> Option<Seq<u8>>
    decreases xs.len(),
{
    if xs.len() == 0 {
        Some(seq![])
    } else {
        match (concat_wire(xs.drop_last(), f), f(xs.last())) {
            (Some(a), Some(b)) => Some(a + b),
            _ => None,
        }
    }
}

pub proof fn lemma_concat_wire_prefix<T>(xs: Seq<T>, f: spec_fn(T) -> Option<Seq<u8>>, k: int)
    requires
        0 <= k <= xs.len(),
        concat_wire(xs.subrange(0, k), f) is None,
    ensures
        concat_wire(xs, f) is None,
    decreases xs.len(),
{
    if k < xs.len() {
        assert(xs.drop_last().subrange(0, k) =~= xs.subrange(0, k));
        lemma_concat_wire_prefix(xs.drop_last(), f, k);
    } else {
        assert(xs.subrange(0, k) =~= xs);
    }
}

/// `count` questions read one after another from `pos`, and the position after them.
pub open spec fn parse_questions(s: Seq<u8>, pos: int, count: nat) -> Option<
    (Seq<(Seq<char>, RecordType, u16)>, int),
>
    decreases count,
{
    if count == 0 {
        Some((seq![], pos))
    } else {
        match parse_question(s, pos) {
            Some((q, e)) => match parse_questions(s, e, (count - 1) as nat) {
                Some((rest, e2)) => Some((seq![q] + rest, e2)),
                None => None,
            },
            None => None,
        }
    }
}

/// `count` records read one after another from `pos`, and the position after them.
pub open spec fn parse_records(s: Seq<u8>, pos: int, count: nat) -> Option<(Seq<RecordView>, int)>
    decreases count,
{
    if count == 0 {
        Some((seq![], pos))
    } else {
        match parse_record(s, pos) {
            Some((r, e)) => match parse_records(s, e, (count - 1) as nat) {
                Some((rest, e2)) => Some((seq![r] + rest, e2)),
                None => None,
            },
            None => None,
        }
    }
}

/// What a message holds: its header and its four sections.
pub type MessageView = (
    Header,
    Seq<(Seq<char>, RecordType, u16)>,
    Seq<RecordView>,
    Seq<RecordView>,
    Seq<RecordView>,
);

/// The message that a datagram holds: the header, then exactly as many
/// questions, answers, authorities and additionals as the header counts.
pub open spec fn parse_message(s: Seq<u8>) -> Option<MessageView> {
    match parse_header(s, 0) {
        Some(h) => match parse_questions(s, 12, h.num_questions as nat) {
            Some((qs, q_end)) => match parse_records(s, q_end, h.num_answers as nat) {
                Some((ans, an_end)) => match parse_records(s, an_end, h.num_authorities as nat) {
                    Some((auth, ns_end)) => match parse_records(s, ns_end, h.num_additionals as nat) {
                        Some((add, _)) => Some((h, qs, ans, auth, add)),
                        None => None,
                    },
                    None => None,
                },
                None => None,
            },
            None => None,
        },
        None => None,
    }
}

pub open spec fn questions_wire(qs: Seq<(Seq<char>, RecordType, u16)>) -> Option<Seq<u8>> {
    concat_wire(qs, |q: (Seq<char>, RecordType, u16)| question_wire(q))
}

pub open spec fn records_wire(rs: Seq<RecordView>) -> Option<Seq<u8>> {
    concat_wire(rs, |r: RecordView| record_wire(r))
}

/// The wire form of a message: the header, then each section in order.
pub open spec fn message_wire(m: MessageView) -> Option<Seq<u8>> {
    match (questions_wire(m.1), records_wire(m.2), records_wire(m.3), records_wire(m.4)) {
        (Some(q), Some(a), Some(n), Some(d)) => Some(header_bytes(m.0) + q + a + n + d),
        _ => None,
    }
}

/// Whether the header's counts are the lengths of the sections.
pub open spec fn counts_match(m: MessageView) -> bool {
    &&& m.0.num_questions as int == m.1.len()
    &&& m.0.num_answers as int == m.2.len()
    &&& m.0.num_authorities as int == m.3.len()
    &&& m.0.num_additionals as int == m.4.len()
}

pub open spec fn records_view(rs: Seq<ResourceRecord>) -> Seq<RecordView> {
    rs.map_values(|r: ResourceRecord| r@)
}

/// A message. The header's counts are kept equal to the sections' lengths
/// by `new` and the `add_` methods.
#[derive(Debug)]
pub struct Message {
    pub header: Header,
    pub questions: Vec<Question>,
    pub answers: Vec<ResourceRecord>,
    pub authorities: Vec<ResourceRecord>,
    pub additionals: Vec<ResourceRecord>,
}

impl View for Message {
    type V = MessageView;

    open spec fn view(&self) -> MessageView {
        (
            self.header,
            self.questions@.map_values(|q: Question| q@),
            records_view(self.answers@),
            records_view(self.authorities@),
            records_view(self.additionals@),
        )
    }
}

fn put_records(out: &mut Vec<u8>, rs: &Vec<ResourceRecord>) -> (r: Result<(), DnsError>)
    ensures
        records_wire(records_view(rs@)) matches Some(w) ==> (r is Ok && final(out)@ == old(out)@
            + w),
        records_wire(records_view(rs@)) is None ==> (r matches Err(e) && e == DnsError::FormatError),
{
    let ghost rv = records_view(rs@);
    let ghost f = |r: RecordView| record_wire(r);
    let ghost start = out@;
    let mut i: usize = 0;
    while i < rs.len()
        invariant
            rv == records_view(rs@),
            f == (|r: RecordView| record_wire(r)),
            i <= rs@.len(),
            concat_wire(rv.subrange(0, i as int), f) matches Some(w) && out@ == start + w,
        decreases rs@.len() - i,
    {
        assert(rv.subrange(0, i + 1).drop_last() =~= rv.subrange(0, i as int));
        match rs[i].to_bytes() {
            Ok(b) => {
                crate::wire::put_bytes(out, b.as_slice());
                proof {
                    let w = concat_wire(rv.subrange(0, i as int), f)->Some_0;
                    assert(start + w + b@ =~= start + (w + b@));
                }
            },
            Err(e) => {
                proof {
                    lemma_concat_wire_prefix(rv, f, i + 1);
                }
                return Err(e);
            },
        }
        i = i + 1;
    }
    assert(rv.subrange(0, i as int) =~= rv);
    Ok(())
}

fn read_records(buf: &[u8], pos: usize, count: u16) -> (r: Result<(Vec<ResourceRecord>, usize), DnsError>)
    ensures
        parse_records(buf@, pos as int, count as nat) matches Some((rs, e)) ==> (r matches Ok((v, end))
            && records_view(v@) == rs && end == e),
        parse_records(buf@, pos as int, count as nat) is None ==> (r matches Err(e) && e
            == DnsError::FormatError),
{
    let mut out: Vec<ResourceRecord> = Vec::new();
    let mut cur = pos;
    let mut i: u16 = 0;
    while i < count
        invariant
            i <= count,
            parse_records(buf@, pos as int, count as nat) == match parse_records(
                buf@,
                cur as int,
                (count - i) as nat,
            ) {
                Some((rest, e)) => Some((records_view(out@) + rest, e)),
                None => None,
            },
        decreases count - i,
    {
        match ResourceRecord::from_bytes(buf, cur) {
            Ok((rr, e)) => {
                let ghost before = out@;
                out.push(rr);
                proof {
                    assert(records_view(out@) =~= records_view(before).push(rr@));
                    match parse_records(buf@, e as int, (count - i - 1) as nat) {
                        Some((rest, e2)) => {
                            assert(records_view(before) + (seq![rr@] + rest) =~= records_view(out@)
                                + rest);
                        },
                        None => {},
                    }
                }
                cur = e;
            },
            Err(err) => {
                return Err(err);
            },
        }
        i = i + 1;
    }
    assert(records_view(out@) + seq![] =~= records_view(out@));
    Ok((out, cur))
}

fn read_questions(buf: &[u8], pos: usize, count: u16) -> (r: Result<(Vec<Question>, usize), DnsError>)
    ensures
        parse_questions(buf@, pos as int, count as nat) matches Some((qs, e)) ==> (r matches Ok((v, end))
            && v@.map_values(|q: Question| q@) == qs && end == e),
        parse_questions(buf@, pos as int, count as nat) is None ==> (r matches Err(e) && e
            == DnsError::FormatError),
{
    let mut out: Vec<Question> = Vec::new();
    let mut cur = pos;
    let mut i: u16 = 0;
    while i < count
        invariant
            i <= count,
            parse_questions(buf@, pos as int, count as nat) == match parse_questions(
                buf@,
                cur as int,
                (count - i) as nat,
            ) {
                Some((rest, e)) => Some((out@.map_values(|q: Question| q@) + rest, e)),
                None => None,
            },
        decreases count - i,
    {
        match Question::from_bytes(buf, cur) {
            Ok((q, e)) => {
                let ghost before = out@;
                let ghost qv = q@;
                out.push(q);
                proof {
                    assert(out@.map_values(|q: Question| q@) =~= before.map_values(
                        |q: Question| q@,
                    ).push(qv));
                    match parse_questions(buf@, e as int, (count - i - 1) as nat) {
                        Some((rest, e2)) => {
                            assert(before.map_values(|q: Question| q@) + (seq![qv] + rest)
                                =~= out@.map_values(|q: Question| q@) + rest);
                        },
                        None => {},
                    }
                }
                cur = e;
            },
            Err(err) => {
                return Err(err);
            },
        }
        i = i + 1;
    }
    assert(out@.map_values(|q: Question| q@) + seq![] =~= out@.map_values(|q: Question| q@));
    Ok((out, cur))
}

impl Message {
    /// A message with the given id and flags and empty sections; the
    /// header's counts start at zero.
    pub fn new(header: Header) -> (r: Message)
        ensures
            r.header.id == header.id,
            r.header.flags == header.flags,
            r@.1.len() == 0,
            r@.2.len() == 0,
            r@.3.len() == 0,
            r@.4.len() == 0,
            counts_match(r@),
    {
        let m = Message {
            header: Header::new(header.id, header.flags),
            questions: Vec::new(),
            answers: Vec::new(),
            authorities: Vec::new(),
            additionals: Vec::new(),
        };
        assert(m@.1 =~= seq![]);
        assert(m@.2 =~= seq![]);
        assert(m@.3 =~= seq![]);
        assert(m@.4 =~= seq![]);
        m
    }

    pub fn add_question(&mut self, question: Question)
        requires
            old(self).header.num_questions < 0xffff,
        ensures
            final(self).header == (Header {
                num_questions: (old(self).header.num_questions + 1) as u16,
                ..old(self).header
            }),
            final(self)@.1 == old(self)@.1.push(question@),
            final(self)@.2 == old(self)@.2,
            final(self)@.3 == old(self)@.3,
            final(self)@.4 == old(self)@.4,
    {
        let ghost qv = question@;
        self.header.num_questions = self.header.num_questions + 1;
        self.questions.push(question);
        assert(self@.1 =~= old(self)@.1.push(qv));
    }

    pub fn add_answer(&mut self, answer: ResourceRecord)
        requires
            old(self).header.num_answers < 0xffff,
        ensures
            final(self).header == (Header {
                num_answers: (old(self).header.num_answers + 1) as u16,
                ..old(self).header
            }),
            final(self)@.1 == old(self)@.1,
            final(self)@.2 == old(self)@.2.push(answer@),
            final(self)@.3 == old(self)@.3,
            final(self)@.4 == old(self)@.4,
    {
        let ghost rv = answer@;
        self.header.num_answers = self.header.num_answers + 1;
        self.answers.push(answer);
        assert(self@.2 =~= old(self)@.2.push(rv));
    }

    pub fn add_authority(&mut self, answer: ResourceRecord)
        requires
            old(self).header.num_authorities < 0xffff,
        ensures
            final(self).header == (Header {
                num_authorities: (old(self).header.num_authorities + 1) as u16,
                ..old(self).header
            }),
            final(self)@.1 == old(self)@.1,
            final(self)@.2 == old(self)@.2,
            final(self)@.3 == old(self)@.3.push(answer@),
            final(self)@.4 == old(self)@.4,
    {
        let ghost rv = answer@;
        self.header.num_authorities = self.header.num_authorities + 1;
        self.authorities.push(answer);
        assert(self@.3 =~= old(self)@.3.push(rv));
    }

    pub fn add_additional(&mut self, answer: ResourceRecord)
        requires
            old(self).header.num_additionals < 0xffff,
        ensures
            final(self).header == (Header {
                num_additionals: (old(self).header.num_additionals + 1) as u16,
                ..old(self).header
            }),
            final(self)@.1 == old(self)@.1,
            final(self)@.2 == old(self)@.2,
            final(self)@.3 == old(self)@.3,
            final(self)@.4 == old(self)@.4.push(answer@),
    {
        let ghost rv = answer@;
        self.header.num_additionals = self.header.num_additionals + 1;
        self.additionals.push(answer);
        assert(self@.4 =~= old(self)@.4.push(rv));
    }

    /// The wire form of the message: the header as it stands, then every
    /// section in order.
    pub fn to_bytes(&self) -> (r: Result<Vec<u8>, DnsError>)
        ensures
            message_wire(self@) matches Some(w) ==> (r matches Ok(v) && v@ == w),
            message_wire(self@) is None ==> (r matches Err(e) && e == DnsError::FormatError),
    {
        let mut out = self.header.to_bytes();
        let ghost qv = self@.1;
        let ghost f = |q: (Seq<char>, RecordType, u16)| question_wire(q);
        let ghost hb = out@;
        let mut i: usize = 0;
        while i < self.questions.len()
            invariant
                qv == self@.1,
                f == (|q: (Seq<char>, RecordType, u16)| question_wire(q)),
                i <= qv.len(),
                qv.len() == self.questions@.len(),
                concat_wire(qv.subrange(0, i as int), f) matches Some(w) && out@ == hb + w,
            decreases qv.len() - i,
        {
            assert(qv.subrange(0, i + 1).drop_last() =~= qv.subrange(0, i as int));
            match self.questions[i].to_bytes() {
                Ok(b) => {
                    crate::wire::put_bytes(&mut out, b.as_slice());
                    proof {
                        let w = concat_wire(qv.subrange(0, i as int), f)->Some_0;
                        assert(hb + w + b@ =~= hb + (w + b@));
                    }
                },
                Err(e) => {
                    proof {
                        lemma_concat_wire_prefix(qv, f, i + 1);
                    }
                    return Err(e);
                },
            }
            i = i + 1;
        }
        assert(qv.subrange(0, i as int) =~= qv);
        match put_records(&mut out, &self.answers) {
            Ok(()) => {},
            Err(e) => {
                return Err(e);
            },
        }
        match put_records(&mut out, &self.authorities) {
            Ok(()) => {},
            Err(e) => {
                return Err(e);
            },
        }
        match put_records(&mut out, &self.additionals) {
            Ok(()) => {},
            Err(e) => {
                return Err(e);
            },
        }
        proof {
            let q = questions_wire(self@.1)->Some_0;
            let a = records_wire(self@.2)->Some_0;
            let n = records_wire(self@.3)->Some_0;
            let d = records_wire(self@.4)->Some_0;
            assert(out@ =~= header_bytes(self.header) + q + a + n + d);
        }
        Ok(out)
    }

    /// Reads a whole message from a datagram.
    pub fn from_bytes(buf: &[u8]) -> (r: Result<Message, DnsError>)
        ensures
            parse_message(buf@) matches Some(m) ==> (r matches Ok(x) && x@ == m),
            parse_message(buf@) is None ==> (r matches Err(e) && e == DnsError::FormatError),
    {
        let (header, hdr_end) = match Header::from_bytes(buf, 0) {
            Ok(x) => x,
            Err(e) => {
                return Err(e);
            },
        };
        let (questions, q_end) = match read_questions(buf, hdr_end, header.num_questions) {
            Ok(x) => x,
            Err(e) => {
                return Err(e);
            },
        };
        let (answers, an_end) = match read_records(buf, q_end, header.num_answers) {
            Ok(x) => x,
            Err(e) => {
                return Err(e);
            },
        };
        let (authorities, ns_end) = match read_records(buf, an_end, header.num_authorities) {
            Ok(x) => x,
            Err(e) => {
                return Err(e);
            },
        };
        let (additionals, _) = match read_records(buf, ns_end, header.num_additionals) {
            Ok(x) => x,
            Err(e) => {
                return Err(e);
            },
        };
        Ok(Message { header, questions, answers, authorities, additionals })
    }
}

proof fn lemma_parse_questions_len(s: Seq<u8>, pos: int, count: nat)
    ensures
        parse_questions(s, pos, count) matches Some((qs, _)) ==> qs.len() == count,
    decreases count,
{
    if count > 0 {
        match parse_question(s, pos) {
            Some((q, e)) => lemma_parse_questions_len(s, e, (count - 1) as nat),
            None => {},
        }
    }
}

proof fn lemma_parse_records_len(s: Seq<u8>, pos: int, count: nat)
    ensures
        parse_records(s, pos, count) matches Some((rs, _)) ==> rs.len() == count,
    decreases count,
{
    if count > 0 {
        match parse_record(s, pos) {
            Some((r, e)) => lemma_parse_records_len(s, e, (count - 1) as nat),
            None => {},
        }
    }
}

/// A parsed message holds exactly as many items in each section as its
/// header counts.
pub proof fn lemma_parsed_counts_match(s: Seq<u8>)
    ensures
        parse_message(s) matches Some(m) ==> counts_match(m),
{
    match parse_header(s, 0) {
        Some(h) => {
            lemma_parse_questions_len(s, 12, h.num_questions as nat);
            match parse_questions(s, 12, h.num_questions as nat) {
                Some((qs, q_end)) => {
                    lemma_parse_records_len(s, q_end, h.num_answers as nat);
                    match parse_records(s, q_end, h.num_answers as nat) {
                        Some((ans, an_end)) => {
                            lemma_parse_records_len(s, an_end, h.num_authorities as nat);
                            match parse_records(s, an_end, h.num_authorities as nat) {
                                Some((auth, ns_end)) => {
                                    lemma_parse_records_len(s, ns_end, h.num_additionals as nat);
                                },
                                None => {},
                            }
                        },
                        None => {},
                    }
                },
                None => {},
            }
        },
        None => {},
    }
}

/// A message is written as its twelve header octets followed by each
/// section's items; the header read back from the front gives section counts
/// equal to the sections' lengths whenever the message's counts match them.
pub proof fn lemma_message_wire_layout(m: MessageView)
    requires
        message_wire(m) is Some,
    ensures
        message_wire(m)->Some_0.len() == 12 + questions_wire(m.1)->Some_0.len() + records_wire(
            m.2,
        )->Some_0.len() + records_wire(m.3)->Some_0.len() + records_wire(m.4)->Some_0.len(),
        parse_header(message_wire(m)->Some_0, 0) == Some(m.0),
        counts_match(m) ==> header_counts_are_lengths(message_wire(m)->Some_0, m),
{
    let q = questions_wire(m.1)->Some_0;
    let a = records_wire(m.2)->Some_0;
    let n = records_wire(m.3)->Some_0;
    let d = records_wire(m.4)->Some_0;
    let hb = header_bytes(m.0);
    let w = hb + q + a + n + d;
    assert(message_wire(m) == Some(w));
    assert(hb.len() == 12);
    assert(w.subrange(0, 12) =~= hb);
    crate::header::lemma_header_round_trip(m.0, w, 0);
}

/// Whether the header at the front of `w` counts the sections of `m`.
pub open spec fn header_counts_are_lengths(w: Seq<u8>, m: MessageView) -> bool {
    parse_header(w, 0) matches Some(h) && h.num_questions as int == m.1.len() && h.num_answers as int
        == m.2.len() && h.num_authorities as int == m.3.len() && h.num_additionals as int == m.4.len()
}

} // verus!
