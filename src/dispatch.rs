//! What the listener decides for each datagram it receives, and the
//! response it sends back.
use vstd::prelude::*;

use crate::error::DnsError;
use crate::header::{parse_header, set_response_flags, Flags, Header};
use crate::message::{parse_message, records_view, Message};
use crate::question::Question;
use crate::record::ResourceRecord;

verus! {

/// What to do with a request datagram.
pub enum Screening {
    /// Send nothing: the datagram has no readable header, or is a response.
    Ignore,
    /// Send this response at once.
    Respond(Message),
    /// Resolve `question`, then answer the request with `header`.
    Resolve { header: Header, question: Question },
}

/// The response header for a request header: same id, response flags and
/// the given response code, counts zero.
pub open spec fn response_header(request: Header, rcode: u16) -> Header {
    Header {
        id: request.id,
        flags: Flags((((request.flags.0 | 0x8080) & 0xfbff) & 0xfff0) | rcode),
        num_questions: 0,
        num_answers: 0,
        num_authorities: 0,
        num_additionals: 0,
    }
}

fn error_response(request: Header, rcode: u8) -> (r: Message)
    requires
        rcode < 16,
    ensures
        r@.0 == response_header(request, rcode as u16),
        r@.1.len() == 0,
        r@.2.len() == 0,
        r@.3.len() == 0,
        r@.4.len() == 0,
{
    let mut flags = set_response_flags(request.flags);
    flags.set_rcode(rcode);
    let m = Message::new(Header::new(request.id, flags));
    m
}

/// Sorts a request datagram: a response or a datagram without a header is
/// ignored; one that does not parse is answered with a format error; one
/// with an opcode other than a standard query, or other than one question,
/// is answered with "not implemented"; otherwise its question is resolved.
pub fn screen_request(bytes: &[u8]) -> (r: Screening)
    ensures
        parse_header(bytes@, 0) is None ==> r is Ignore,
        parse_header(bytes@, 0) matches Some(h) ==> {
            &&& h.flags.bit(15) ==> r is Ignore
            &&& !h.flags.bit(15) && parse_message(bytes@) is None ==> (r matches Screening::Respond(m)
                && m@.0 == response_header(h, 1) && m@.1.len() == 0)
            &&& !h.flags.bit(15) && parse_message(bytes@) is Some && (h.num_questions != 1
                || h.flags.opcode_spec() != 0) ==> (r matches Screening::Respond(m) && m@.0
                == response_header(h, 4) && m@.1.len() == 0)
            &&& !h.flags.bit(15) && parse_message(bytes@) is Some && h.num_questions == 1
                && h.flags.opcode_spec() == 0 ==> (r matches Screening::Resolve { header, question }
                && header == h && question@ == parse_message(bytes@)->Some_0.1[0])
        },
{
    let (header, _) = match Header::from_bytes(bytes, 0) {
        Ok(x) => x,
        Err(_) => {
            return Screening::Ignore;
        },
    };
    if header.flags.qr() {
        return Screening::Ignore;
    }
    let mut request = match Message::from_bytes(bytes) {
        Ok(m) => m,
        Err(_) => {
            return Screening::Respond(error_response(header, 1));
        },
    };
    if request.header.num_questions != 1 || request.header.flags.opcode() != 0 {
        return Screening::Respond(error_response(header, 4));
    }
    proof {
        crate::message::lemma_parsed_counts_match(bytes@);
    }
    assert(request@.1.len() == 1);
    let ghost q0 = request@.1[0];
    assert(q0 == request.questions@[0]@);
    let question = request.questions.remove(0);
    Screening::Resolve { header, question }
}

/// The response to a request with `request` header and `question`: on
/// success the records as answers (as many as the header can count), on
/// failure a server failure with no answers.
pub fn build_response(request: Header, question: Question, result: Result<Vec<ResourceRecord>, DnsError>) -> (r: Message)
    ensures
        r@.1 == seq![question@],
        r@.3.len() == 0,
        r@.4.len() == 0,
        crate::message::counts_match(r@),
        result matches Ok(v) ==> r@.0.id == request.id && r@.0.flags == set_response_flags_spec(
            request.flags,
        ) && (v@.len() < 0xffff ==> r@.2 == records_view(v@)),
        result is Err ==> r@.0 == (Header { num_questions: 1, ..response_header(request, 2) }) && r@.2.len() == 0,
{
    match result {
        Ok(records) => {
            let flags = set_response_flags(request.flags);
            let mut m = Message::new(Header::new(request.id, flags));
            m.add_question(question);
            let ghost rv = records_view(records@);
            let mut i: usize = 0;
            while i < records.len() && i < 0xfffe
                invariant
                    i <= records@.len(),
                    i <= 0xfffe,
                    rv == records_view(records@),
                    m@.2 == rv.subrange(0, i as int),
                    m@.1.len() == 1,
                    m@.1[0] == question@,
                    m@.3.len() == 0,
                    m@.4.len() == 0,
                    m.header.id == request.id,
                    m.header.flags == flags,
                    crate::message::counts_match(m@),
                decreases records@.len() - i,
            {
                m.add_answer(records[i].clone());
                assert(m@.2 =~= rv.subrange(0, i + 1));
                i = i + 1;
            }
            proof {
                if records@.len() < 0xffff {
                    assert(rv.subrange(0, i as int) =~= rv);
                }
                assert(m@.1 =~= seq![question@]);
            }
            m
        },
        Err(_) => {
            let mut flags = set_response_flags(request.flags);
            flags.set_rcode(2);
            let mut m = Message::new(Header::new(request.id, flags));
            m.add_question(question);
            assert(m@.1 =~= seq![question@]);
            m
        },
    }
}

/// The flags of a response to a request with `f`.
pub open spec fn set_response_flags_spec(f: Flags) -> Flags {
    Flags((f.0 | 0x8080) & 0xfbff)
}

} // verus!
